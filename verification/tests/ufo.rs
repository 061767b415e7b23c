use alien_architect::asset::{ObjectAssetServer, ObjectConf};
use alien_architect::drop::{handle_ufo_drop_event, DropOutcome};
use alien_architect::grid::{setup_grid, Cell, Grid};
use alien_architect::kind::ObjectID;
use alien_architect::level::{Score, TurnCounter};
use alien_architect::object::{Object, ObjectSelectEvent};
use alien_architect::tile::{TileState, TileStateChangeEvent};
use alien_architect::ufo::{
    calculate_object_position, control_ufo, find_cell, find_known, handle_ufo_cancel_event,
    handle_ufo_lift_event, ufo_carry_object, ufo_move, UFOCancelEvent, UFODropEvent, UFOLiftEvent,
    UfoKeys, UfoSignal, UFO,
};
use alien_architect::world::World;

fn board() -> Grid {
    Grid::new((5, 9), (-5, 35), (30, 18), (2, 4))
}

fn conf(id: ObjectID, selectable: bool, occupy: &[(i32, i32)]) -> ObjectConf {
    ObjectConf {
        id,
        name: format!("{:?}", id),
        selectable,
        animated: false,
        occupy: occupy.iter().map(|&(x, y)| Cell::new(x, y)).collect(),
        offset: Cell::new(0, 0),
    }
}

fn server() -> ObjectAssetServer {
    let mut oas = ObjectAssetServer::new();
    for id in [ObjectID::Villager, ObjectID::Cow, ObjectID::House, ObjectID::Farm, ObjectID::Tower] {
        oas.insert(conf(id, true, &[(0, 0)]));
    }
    for id in [ObjectID::King, ObjectID::Castle, ObjectID::Mountain] {
        oas.insert(conf(id, false, &[(0, 0)]));
    }
    oas.insert(conf(ObjectID::Church, true, &[(0, 0), (0, 1), (1, 1)]));
    oas
}

struct Game {
    grid: Grid,
    world: World,
    oas: ObjectAssetServer,
    objects: Vec<Object>,
    ufo: UFO,
    turns: TurnCounter,
}

fn game(lines: &[(ObjectID, u32, u32)], ufo: (i32, i32)) -> Game {
    let grid = board();
    let mut world = World::new(&grid);
    let oas = server();
    let mut objects = Vec::new();
    for (entity, &(id, x, y)) in lines.iter().enumerate() {
        objects.push(Object::new(entity as u64, id, (x, y), &mut world, &grid, &oas));
    }
    let (ufo, _) = UFO::new(Cell::new(ufo.0, ufo.1));
    Game { grid, world, oas, objects, ufo, turns: TurnCounter::new() }
}

impl Game {
    fn lift(&mut self) -> alien_architect::ufo::LiftOutcome {
        let event = UFOLiftEvent::new(self.ufo.position);
        handle_ufo_lift_event(
            &mut self.ufo,
            &event,
            &self.objects,
            &self.oas,
            &self.world,
            &self.grid,
        )
    }

    fn drop_at(&mut self, x: i32, y: i32) -> DropOutcome {
        self.ufo.position = Cell::new(x, y);
        handle_ufo_drop_event(
            &mut self.ufo,
            &mut self.objects,
            &mut self.world,
            &mut self.turns,
            &self.oas,
            &self.grid,
        )
    }
}

fn in_step(g: &Game) -> bool {
    let recorded = g.objects.iter().all(|object| {
        !object.occupied.is_empty()
            && object.occupied.iter().all(|cell| {
                g.grid.is_walkable(*cell)
                    && g.world.occupant_at(*cell) == Some((object.entity, object.id))
            })
    });
    let claimed = (0..g.world.objects.len()).all(|index| match g.world.objects[index] {
        None => true,
        Some((entity, id)) => g.objects.iter().any(|object| {
            object.entity == entity
                && object.id == id
                && object.occupied.contains(&g.grid.cell_at(index))
        }),
    });
    recorded && claimed
}

fn keys() -> UfoKeys {
    UfoKeys { d: false, a: false, w: false, s: false, h: false, j: false, enter: false }
}

fn tile(x: i32, y: i32, state: TileState) -> UfoSignal {
    UfoSignal::Tile(TileStateChangeEvent::new(Cell::new(x, y), state))
}

fn select(x: i32, y: i32) -> UfoSignal {
    UfoSignal::Select(ObjectSelectEvent::new(Cell::new(x, y)))
}

#[test]
fn a_new_carrier_holds_nothing_and_marks_its_cell() {
    let (ufo, event) = UFO::new(Cell::new(1, 6));
    assert_eq!(ufo.position, Cell::new(1, 6));
    assert_eq!(ufo.offset, Cell::new(5, 30));
    assert!(ufo.selected.is_none());
    assert_eq!(event, TileStateChangeEvent::new(Cell::new(1, 6), TileState::Selected));
}

#[test]
fn steering_keys_step_diagonally_by_row_parity() {
    let grid = board();
    let mut score = Score::new();
    let cases = [
        ((1, 6), 'd', (1, 5)),
        ((1, 6), 'a', (0, 7)),
        ((1, 6), 'w', (1, 7)),
        ((1, 6), 's', (0, 5)),
        ((1, 5), 'd', (2, 4)),
        ((1, 5), 'a', (1, 6)),
        ((1, 5), 'w', (2, 6)),
        ((1, 5), 's', (1, 4)),
    ];
    for (from, key, to) in cases {
        let (mut ufo, _) = UFO::new(Cell::new(from.0, from.1));
        let mut pressed = keys();
        match key {
            'd' => pressed.d = true,
            'a' => pressed.a = true,
            'w' => pressed.w = true,
            _ => pressed.s = true,
        }
        let signals = control_ufo(&mut ufo, &pressed, &mut score, &grid);
        assert_eq!(ufo.position, Cell::new(to.0, to.1), "key {} from {:?}", key, from);
        assert_eq!(
            signals,
            vec![
                tile(from.0, from.1, TileState::Default),
                tile(to.0, to.1, TileState::Selected),
                select(to.0, to.1),
            ]
        );
    }
}

#[test]
fn the_carrier_stays_on_the_board() {
    let grid = setup_grid();
    let mut score = Score::new();
    let (mut ufo, _) = UFO::new(Cell::new(1, 0));
    let mut pressed = keys();
    pressed.d = true;
    assert_eq!(control_ufo(&mut ufo, &pressed, &mut score, &grid), Vec::new());
    assert_eq!(ufo.position, Cell::new(1, 0));
    let (mut ufo, _) = UFO::new(Cell::new(0, 1));
    let mut pressed = keys();
    pressed.s = true;
    assert_eq!(control_ufo(&mut ufo, &pressed, &mut score, &grid), Vec::new());
    assert_eq!(ufo.position, Cell::new(0, 1));
    assert!(!ufo_move(5, 3, &mut ufo, &grid));
    assert!(!ufo_move(0, 2, &mut ufo, &grid));
    assert!(ufo_move(1, 2, &mut ufo, &grid));
    assert_eq!(ufo.position, Cell::new(1, 2));
}

#[test]
fn keys_pressed_together_add_their_steps() {
    let grid = board();
    let mut score = Score::new();
    let (mut ufo, _) = UFO::new(Cell::new(2, 4));
    let mut pressed = keys();
    pressed.d = true;
    pressed.s = true;
    let signals = control_ufo(&mut ufo, &pressed, &mut score, &grid);
    assert_eq!(ufo.position, Cell::new(1, 2));
    assert_eq!(signals.len(), 3);
    let (mut ufo, _) = UFO::new(Cell::new(2, 4));
    pressed.a = true;
    pressed.w = true;
    let signals = control_ufo(&mut ufo, &pressed, &mut score, &grid);
    assert_eq!(ufo.position, Cell::new(0, 4));
    assert_eq!(signals.len(), 3);
}

#[test]
fn the_lift_key_asks_to_lift_or_to_drop() {
    let mut g = game(&[(ObjectID::Villager, 1, 1)], (1, 1));
    let mut score = Score::new();
    let mut pressed = keys();
    pressed.h = true;
    pressed.j = true;
    let signals = control_ufo(&mut g.ufo, &pressed, &mut score, &g.grid);
    assert_eq!(signals, vec![select(1, 1), UfoSignal::Lift(UFOLiftEvent::new(Cell::new(1, 1)))]);
    assert!(!g.lift().warning);
    let signals = control_ufo(&mut g.ufo, &pressed, &mut score, &g.grid);
    assert_eq!(
        signals,
        vec![UfoSignal::Drop(UFODropEvent::new()), UfoSignal::Cancel(UFOCancelEvent::new())]
    );
    pressed.j = false;
    pressed.w = true;
    let signals = control_ufo(&mut g.ufo, &pressed, &mut score, &g.grid);
    assert_eq!(signals, vec![UfoSignal::Drop(UFODropEvent::new())]);
    assert_eq!(g.ufo.position, Cell::new(2, 2));
}

#[test]
fn starting_again_takes_the_score_back_and_keeps_the_carrier() {
    let grid = board();
    let mut score = Score { previous: 12, current: 31 };
    let (mut ufo, _) = UFO::new(Cell::new(2, 4));
    let mut pressed = keys();
    pressed.enter = true;
    pressed.w = true;
    pressed.h = true;
    let signals = control_ufo(&mut ufo, &pressed, &mut score, &grid);
    assert_eq!(
        signals,
        vec![
            select(2, 4),
            UfoSignal::Lift(UFOLiftEvent::new(Cell::new(2, 4))),
            UfoSignal::Restart,
        ]
    );
    assert_eq!(ufo.position, Cell::new(2, 4));
    assert_eq!((score.previous, score.current), (12, 12));
    let mut score = Score { previous: 12, current: 31 };
    control_ufo(&mut ufo, &keys(), &mut score, &grid);
    assert_eq!((score.previous, score.current), (12, 31));
}

#[test]
fn lifting_remembers_where_the_object_may_go() {
    let mut g = game(&[(ObjectID::House, 2, 2), (ObjectID::Villager, 1, 1)], (1, 1));
    let outcome = g.lift();
    assert!(!outcome.warning);
    let selection = g.ufo.selected.as_ref().unwrap();
    assert_eq!(selection.entity, 1);
    assert_eq!(selection.occupy_index, 0);
    assert_eq!(selection.valid.len(), 44);
    assert!(selection.valid.contains(&Cell::new(2, 2)));
    assert!(!selection.valid.contains(&Cell::new(1, 1)));
    assert_eq!(outcome.tiles.len(), 45);
    assert_eq!(outcome.tiles[0], TileStateChangeEvent::new(Cell::new(1, 1), TileState::Default));
    for (event, cell) in outcome.tiles[1..].iter().zip(selection.valid.iter()) {
        assert_eq!(*event, TileStateChangeEvent::new(*cell, TileState::Selected));
    }
}

#[test]
fn lifting_nothing_warns() {
    let mut g = game(&[(ObjectID::King, 2, 2), (ObjectID::Villager, 1, 1)], (3, 3));
    let outcome = g.lift();
    assert!(outcome.warning);
    assert!(outcome.tiles.is_empty());
    assert!(g.ufo.selected.is_none());
    g.ufo.position = Cell::new(2, 2);
    let outcome = g.lift();
    assert!(outcome.warning);
    assert!(g.ufo.selected.is_none());
}

#[test]
fn an_object_is_held_by_the_cell_under_the_carrier() {
    let mut g = game(&[(ObjectID::Church, 2, 4)], (3, 5));
    assert_eq!(g.objects[0].occupied, vec![Cell::new(2, 4), Cell::new(2, 5), Cell::new(3, 5)]);
    assert!(!g.lift().warning);
    assert_eq!(g.ufo.selected.as_ref().unwrap().occupy_index, 2);
    assert_eq!(ufo_carry_object(&g.ufo, &g.objects, &g.oas, &g.grid), Some((0, Cell::new(2, 4))));
    g.ufo.position = Cell::new(1, 0);
    assert_eq!(ufo_carry_object(&g.ufo, &g.objects, &g.oas, &g.grid), None);
    g.ufo.position = Cell::new(4, 8);
    assert_eq!(ufo_carry_object(&g.ufo, &g.objects, &g.oas, &g.grid), Some((0, Cell::new(2, 7))));
}

#[test]
fn the_anchor_is_found_from_the_held_cell() {
    let church = vec![Cell::new(0, 0), Cell::new(0, 1), Cell::new(1, 1)];
    let (mut ufo, _) = UFO::new(Cell::new(2, 5));
    assert_eq!(calculate_object_position(&ufo, 1, &church), (2, 4));
    assert_eq!(calculate_object_position(&ufo, 0, &church), (2, 5));
    ufo.position = Cell::new(3, 5);
    assert_eq!(calculate_object_position(&ufo, 2, &church), (2, 4));
    ufo.position = Cell::new(3, 4);
    assert_eq!(calculate_object_position(&ufo, 1, &church), (2, 3));
    ufo.position = Cell::new(4, 4);
    assert_eq!(calculate_object_position(&ufo, 2, &church), (2, 3));
    ufo.position = Cell::new(i32::MIN, i32::MAX);
    assert_eq!(
        calculate_object_position(&ufo, 2, &church),
        (i32::MIN as i64 - 1, i32::MAX as i64 - 1)
    );
}

#[test]
fn putting_back_changes_nothing_on_the_board() {
    let mut g = game(&[(ObjectID::House, 2, 2), (ObjectID::Villager, 1, 1)], (1, 1));
    g.lift();
    g.ufo.position = Cell::new(2, 2);
    let slots = g.world.objects.clone();
    let outcome = handle_ufo_cancel_event(&mut g.ufo, &g.objects);
    assert!(g.ufo.selected.is_none());
    assert_eq!(g.ufo.position, Cell::new(2, 2));
    assert_eq!(outcome.restored, Some((1, Cell::new(1, 1))));
    assert_eq!(outcome.tiles.len(), 43);
    assert!(outcome.tiles.iter().all(|e| e.state == TileState::Default));
    assert!(outcome.tiles.iter().all(|e| e.position != Cell::new(2, 2)));
    assert_eq!(g.world.objects, slots);
    assert_eq!(g.objects[1].occupied, vec![Cell::new(1, 1)]);
    assert_eq!(g.turns.turn, 0);
}

#[test]
fn dropping_outside_the_offered_cells_changes_nothing() {
    let mut g = game(
        &[(ObjectID::Mountain, 3, 3), (ObjectID::Villager, 1, 1), (ObjectID::Farm, 2, 2)],
        (1, 1),
    );
    g.lift();
    let slots = g.world.objects.clone();
    let valid = g.ufo.selected.as_ref().unwrap().valid.clone();
    for (x, y) in [(3, 3), (2, 2), (7, 7)] {
        let outcome = g.drop_at(x, y);
        assert!(matches!(outcome, DropOutcome::Rejected));
        assert_eq!(g.world.objects, slots);
        assert_eq!(g.objects.len(), 3);
        assert_eq!(g.objects[1].occupied, vec![Cell::new(1, 1)]);
        assert_eq!(g.turns.turn, 0);
        let selection = g.ufo.selected.as_ref().unwrap();
        assert_eq!(selection.entity, 1);
        assert_eq!(selection.occupy_index, 0);
        assert_eq!(selection.valid, valid);
        assert_eq!(g.ufo.position, Cell::new(x, y));
    }
}

#[test]
fn a_villager_dropped_on_a_house_is_gone() {
    let mut g = game(&[(ObjectID::House, 2, 2), (ObjectID::Villager, 1, 1)], (1, 1));
    g.lift();
    let outcome = g.drop_at(2, 2);
    match outcome {
        DropOutcome::Dropped { tiles, entity, target, consumed } => {
            assert_eq!(entity, 1);
            assert_eq!(target, (2, 2));
            assert!(consumed);
            assert_eq!(tiles.len(), 43);
            assert!(tiles.iter().all(|e| e.state == TileState::Default));
            assert!(tiles.iter().all(|e| e.position != Cell::new(2, 2)));
        }
        other => panic!("{:?}", other),
    }
    assert_eq!(g.world.occupant_at(Cell::new(2, 2)), Some((0, ObjectID::House)));
    assert_eq!(g.world.occupant_at(Cell::new(1, 1)), None);
    assert_eq!(g.world.objects.iter().filter(|slot| slot.is_some()).count(), 1);
    assert_eq!(g.objects.len(), 1);
    assert_eq!(g.objects[0].id, ObjectID::House);
    assert!(g.ufo.selected.is_none());
    assert_eq!(g.turns.turn, 1);
    assert!(in_step(&g));
}

#[test]
fn a_cow_dropped_on_a_farm_is_gone() {
    let mut g = game(&[(ObjectID::Cow, 1, 1), (ObjectID::Farm, 1, 2), (ObjectID::House, 3, 3)], (1, 1));
    g.lift();
    assert!(matches!(g.drop_at(3, 3), DropOutcome::Rejected));
    let outcome = g.drop_at(1, 2);
    assert!(matches!(outcome, DropOutcome::Dropped { entity: 0, consumed: true, .. }));
    assert_eq!(g.world.occupant_at(Cell::new(1, 2)), Some((1, ObjectID::Farm)));
    assert_eq!(g.world.occupant_at(Cell::new(1, 1)), None);
    assert_eq!(g.objects.len(), 2);
    assert!(g.objects.iter().all(|o| o.id != ObjectID::Cow));
}

#[test]
fn an_object_dropped_on_a_free_cell_moves_there() {
    let mut g = game(&[(ObjectID::Villager, 1, 1), (ObjectID::House, 2, 2)], (1, 1));
    g.lift();
    let outcome = g.drop_at(4, 7);
    assert!(matches!(outcome, DropOutcome::Dropped { entity: 0, consumed: false, target: (4, 7), .. }));
    assert_eq!(g.world.occupant_at(Cell::new(4, 7)), Some((0, ObjectID::Villager)));
    assert_eq!(g.world.occupant_at(Cell::new(1, 1)), None);
    assert_eq!(g.objects[0].occupied, vec![Cell::new(4, 7)]);
    assert_eq!(g.objects.len(), 2);
    assert_eq!(g.turns.turn, 1);
    assert!(g.ufo.selected.is_none());
}

#[test]
fn a_house_moves_only_next_to_where_it_stood() {
    let mut g = game(&[(ObjectID::House, 2, 4), (ObjectID::Mountain, 3, 4)], (2, 4));
    g.lift();
    assert!(matches!(g.drop_at(4, 4), DropOutcome::Rejected));
    assert!(matches!(g.drop_at(3, 4), DropOutcome::Rejected));
    assert!(matches!(g.drop_at(2, 6), DropOutcome::Dropped { consumed: false, .. }));
    assert_eq!(g.world.occupant_at(Cell::new(2, 6)), Some((0, ObjectID::House)));
    assert_eq!(g.world.occupant_at(Cell::new(2, 4)), None);
}

#[test]
fn an_object_set_down_where_it_stood_still_takes_the_turn() {
    let mut g = game(&[(ObjectID::House, 2, 4)], (2, 4));
    g.lift();
    let slots = g.world.objects.clone();
    assert!(matches!(g.drop_at(2, 4), DropOutcome::Dropped { consumed: false, .. }));
    assert_eq!(g.world.objects, slots);
    assert_eq!(g.turns.turn, 1);
    assert!(g.ufo.selected.is_none());
}

#[test]
fn a_church_moves_with_its_whole_footprint() {
    let mut g = game(&[(ObjectID::Church, 2, 4), (ObjectID::Mountain, 1, 1)], (2, 5));
    g.lift();
    assert_eq!(g.ufo.selected.as_ref().unwrap().occupy_index, 1);
    assert!(matches!(g.drop_at(0, 1), DropOutcome::Rejected));
    assert!(matches!(g.drop_at(3, 6), DropOutcome::Rejected));
    let outcome = g.drop_at(3, 1);
    assert!(matches!(outcome, DropOutcome::Dropped { consumed: false, target: (3, 0), .. }));
    let cells = vec![Cell::new(3, 0), Cell::new(3, 1), Cell::new(4, 1)];
    assert_eq!(g.objects[0].occupied, cells);
    assert!(in_step(&g));
    for cell in &cells {
        assert_eq!(g.world.occupant_at(*cell), Some((0, ObjectID::Church)));
    }
    for (x, y) in [(2, 4), (2, 5), (3, 5)] {
        assert_eq!(g.world.occupant_at(Cell::new(x, y)), None);
    }
    assert_eq!(g.world.objects.iter().filter(|slot| slot.is_some()).count(), 4);
}

#[test]
fn an_object_that_is_gone_cannot_be_set_down() {
    let mut g = game(&[(ObjectID::Villager, 1, 1)], (1, 1));
    g.lift();
    g.objects.clear();
    let slots = g.world.objects.clone();
    assert!(matches!(g.drop_at(2, 2), DropOutcome::Missing));
    assert!(g.ufo.selected.is_some());
    assert_eq!(g.world.objects, slots);
    let outcome = handle_ufo_cancel_event(&mut g.ufo, &g.objects);
    assert_eq!(outcome.restored, None);
    assert!(outcome.tiles.is_empty());
    assert!(g.ufo.selected.is_some());
}

#[test]
fn finding_cells_and_objects() {
    let g = game(&[(ObjectID::King, 0, 0), (ObjectID::Villager, 1, 1)], (0, 0));
    assert_eq!(find_known(&g.objects, 1), Some(1));
    assert_eq!(find_known(&g.objects, 0), None);
    assert_eq!(find_known(&g.objects, 5), None);
    let cells = vec![Cell::new(1, 1), Cell::new(2, 2), Cell::new(1, 1)];
    assert_eq!(find_cell(&cells, Cell::new(1, 1)), Some(0));
    assert_eq!(find_cell(&cells, Cell::new(2, 2)), Some(1));
    assert_eq!(find_cell(&cells, Cell::new(2, 1)), None);
}

#[test]
fn moves_keep_the_board_and_the_objects_in_step() {
    let mut g = game(
        &[
            (ObjectID::Castle, 2, 4),
            (ObjectID::Tower, 0, 0),
            (ObjectID::Church, 3, 0),
            (ObjectID::House, 1, 6),
            (ObjectID::Villager, 4, 8),
            (ObjectID::Cow, 0, 8),
            (ObjectID::Farm, 4, 4),
        ],
        (0, 0),
    );
    assert!(in_step(&g));
    let moves = [
        ((0, 0), (1, 2)),
        ((3, 1), (0, 3)),
        ((1, 6), (1, 7)),
        ((4, 8), (1, 6)),
        ((0, 8), (4, 4)),
        ((1, 2), (4, 0)),
        ((1, 7), (2, 4)),
    ];
    for (from, to) in moves {
        g.ufo.position = Cell::new(from.0, from.1);
        assert!(!g.lift().warning, "lift at {:?}", from);
        g.drop_at(to.0, to.1);
        if g.ufo.selected.is_some() {
            handle_ufo_cancel_event(&mut g.ufo, &g.objects);
        }
        assert!(g.ufo.selected.is_none());
        assert!(in_step(&g), "after {:?} to {:?}", from, to);
    }
    assert_eq!(g.objects.len(), 6);
    assert_eq!(g.turns.turn, 6);
}
