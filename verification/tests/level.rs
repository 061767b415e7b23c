use alien_architect::asset::{ObjectAssetServer, ObjectConf};
use alien_architect::grid::{Cell, Grid};
use alien_architect::kind::ObjectID;
use alien_architect::level::{
    generate_objects, AppState, Level, LevelError, Score, TurnCounter, LEVEL_COUNT,
};
use alien_architect::object::{handle_select_object_event, Object, ObjectDesc, Selectable};
use alien_architect::turn::PlayerWinEvent;
use alien_architect::win::handle_player_win_event;
use alien_architect::world::World;

fn board() -> Grid {
    Grid::new((5, 9), (-5, 35), (30, 18), (2, 4))
}

fn conf(id: ObjectID, selectable: bool, occupy: &[(i32, i32)]) -> ObjectConf {
    ObjectConf {
        id,
        name: format!("{:?}", id),
        selectable,
        animated: false,
        occupy: occupy.iter().map(|&(x, y)| Cell::new(x, y)).collect(),
        offset: Cell::new(1, 2),
    }
}

fn server() -> ObjectAssetServer {
    let mut oas = ObjectAssetServer::new();
    oas.insert(conf(ObjectID::King, false, &[(0, 0)]));
    oas.insert(conf(ObjectID::Castle, false, &[(0, 0)]));
    oas.insert(conf(ObjectID::Villager, true, &[(0, 0)]));
    oas.insert(conf(ObjectID::Church, true, &[(0, 0), (0, 1), (1, 1)]));
    oas.insert(conf(ObjectID::Field, false, &[]));
    oas
}

fn line(id: ObjectID, x: u32, y: u32) -> ObjectDesc {
    ObjectDesc { id, position: (x, y) }
}

#[test]
fn a_level_is_set_up_in_the_order_of_its_lines() {
    let grid = board();
    let mut world = World::new(&grid);
    world.place(99, ObjectID::Mountain, &vec![Cell::new(4, 4)]);
    let lines = vec![
        line(ObjectID::King, 0, 0),
        line(ObjectID::Church, 2, 3),
        line(ObjectID::Castle, 4, 8),
        line(ObjectID::Villager, 1, 1),
    ];
    let objects = generate_objects(&lines, &grid, &server(), &mut world).unwrap();
    assert_eq!(objects.len(), 4);
    assert_eq!(objects[0].entity, 0);
    assert_eq!(objects[0].id, ObjectID::King);
    assert_eq!(objects[0].occupied, vec![Cell::new(0, 0)]);
    assert_eq!(objects[0].selectable, None);
    assert_eq!(objects[0].name, "King");
    assert_eq!(objects[0].offset, Cell::new(1, 2));
    assert_eq!(objects[1].entity, 1);
    assert_eq!(objects[1].occupied, vec![Cell::new(2, 3), Cell::new(3, 4), Cell::new(4, 4)]);
    assert_eq!(objects[1].selectable, Some(Selectable { selected: false }));
    assert_eq!(objects[3].entity, 3);
    assert_eq!(objects[3].occupied, vec![Cell::new(1, 1)]);
    assert_eq!(world.occupant_at(Cell::new(0, 0)), Some((0, ObjectID::King)));
    assert_eq!(world.occupant_at(Cell::new(2, 3)), Some((1, ObjectID::Church)));
    assert_eq!(world.occupant_at(Cell::new(3, 4)), Some((1, ObjectID::Church)));
    assert_eq!(world.occupant_at(Cell::new(4, 4)), Some((1, ObjectID::Church)));
    assert_eq!(world.occupant_at(Cell::new(4, 8)), Some((2, ObjectID::Castle)));
    assert_eq!(world.occupant_at(Cell::new(1, 1)), Some((3, ObjectID::Villager)));
    assert_eq!(world.objects.iter().filter(|slot| slot.is_some()).count(), 6);
}

#[test]
fn a_second_king_is_an_error() {
    let grid = board();
    let mut world = World::new(&grid);
    let lines = vec![
        line(ObjectID::King, 0, 0),
        line(ObjectID::Castle, 4, 8),
        line(ObjectID::King, 1, 0),
    ];
    let made = generate_objects(&lines, &grid, &server(), &mut world);
    assert_eq!(made.err(), Some(LevelError::MoreThanOneKing));
    assert_eq!(world.occupant_at(Cell::new(0, 0)), Some((0, ObjectID::King)));
    assert_eq!(world.occupant_at(Cell::new(4, 8)), Some((1, ObjectID::Castle)));
    assert_eq!(world.occupant_at(Cell::new(1, 0)), None);
    assert_eq!(world.objects.iter().filter(|slot| slot.is_some()).count(), 2);
}

#[test]
fn a_second_castle_is_an_error() {
    let grid = board();
    let mut world = World::new(&grid);
    let lines = vec![
        line(ObjectID::Castle, 0, 0),
        line(ObjectID::Castle, 4, 8),
        line(ObjectID::King, 1, 0),
    ];
    let made = generate_objects(&lines, &grid, &server(), &mut world);
    assert_eq!(made.err(), Some(LevelError::MoreThanOneCastle));
}

#[test]
fn a_level_without_king_or_castle_is_incomplete() {
    let grid = board();
    let oas = server();
    let mut world = World::new(&grid);
    let no_castle = vec![line(ObjectID::King, 0, 0), line(ObjectID::Villager, 1, 1)];
    assert_eq!(
        generate_objects(&no_castle, &grid, &oas, &mut world).err(),
        Some(LevelError::Incomplete)
    );
    let no_king = vec![line(ObjectID::Castle, 0, 0)];
    assert_eq!(
        generate_objects(&no_king, &grid, &oas, &mut world).err(),
        Some(LevelError::Incomplete)
    );
    assert_eq!(
        generate_objects(&Vec::new(), &grid, &oas, &mut world).err(),
        Some(LevelError::Incomplete)
    );
}

#[test]
fn a_kind_without_configuration_is_an_error() {
    let grid = board();
    let mut world = World::new(&grid);
    let lines = vec![
        line(ObjectID::King, 0, 0),
        line(ObjectID::Castle, 4, 8),
        line(ObjectID::Tavern, 1, 0),
    ];
    let made = generate_objects(&lines, &grid, &server(), &mut world);
    assert_eq!(made.err(), Some(LevelError::MissingConfiguration));
}

#[test]
fn a_kind_that_covers_nothing_is_an_error() {
    let grid = board();
    let mut world = World::new(&grid);
    let lines = vec![
        line(ObjectID::King, 0, 0),
        line(ObjectID::Field, 1, 0),
        line(ObjectID::Castle, 4, 8),
    ];
    let made = generate_objects(&lines, &grid, &server(), &mut world);
    assert_eq!(made.err(), Some(LevelError::EmptyFootprint));
}

#[test]
fn an_object_off_the_board_is_an_error() {
    let grid = board();
    let oas = server();
    let mut world = World::new(&grid);
    let anchor_off = vec![line(ObjectID::King, 5, 0), line(ObjectID::Castle, 4, 8)];
    assert_eq!(
        generate_objects(&anchor_off, &grid, &oas, &mut world).err(),
        Some(LevelError::OutsideBoard)
    );
    let footprint_off = vec![
        line(ObjectID::King, 0, 0),
        line(ObjectID::Castle, 4, 8),
        line(ObjectID::Church, 3, 5),
    ];
    assert_eq!(
        generate_objects(&footprint_off, &grid, &oas, &mut world).err(),
        Some(LevelError::OutsideBoard)
    );
    let far_off = vec![line(ObjectID::King, u32::MAX, u32::MAX)];
    assert_eq!(
        generate_objects(&far_off, &grid, &oas, &mut world).err(),
        Some(LevelError::OutsideBoard)
    );
}

#[test]
fn the_first_fault_in_the_list_is_the_one_reported() {
    let grid = board();
    let mut world = World::new(&grid);
    let lines = vec![
        line(ObjectID::King, 0, 0),
        line(ObjectID::Tavern, 1, 0),
        line(ObjectID::King, 9, 9),
    ];
    let made = generate_objects(&lines, &grid, &server(), &mut world);
    assert_eq!(made.err(), Some(LevelError::MissingConfiguration));
    let lines = vec![line(ObjectID::King, 0, 0), line(ObjectID::King, 9, 9)];
    let made = generate_objects(&lines, &grid, &server(), &mut world);
    assert_eq!(made.err(), Some(LevelError::MoreThanOneKing));
}

#[test]
fn object_new_covers_its_footprint() {
    let grid = board();
    let mut world = World::new(&grid);
    let object = Object::new(7, ObjectID::Church, (1, 2), &mut world, &grid, &server());
    assert_eq!(object.entity, 7);
    assert_eq!(object.id, ObjectID::Church);
    assert_eq!(object.occupied, vec![Cell::new(1, 2), Cell::new(1, 3), Cell::new(2, 3)]);
    for cell in &object.occupied {
        assert_eq!(world.occupant_at(*cell), Some((7, ObjectID::Church)));
    }
}

#[test]
fn selecting_marks_the_first_object_on_the_cell() {
    let grid = board();
    let mut world = World::new(&grid);
    let oas = server();
    let mut objects = vec![
        Object::new(0, ObjectID::King, (1, 1), &mut world, &grid, &oas),
        Object::new(1, ObjectID::Villager, (1, 1), &mut world, &grid, &oas),
        Object::new(2, ObjectID::Church, (1, 0), &mut world, &grid, &oas),
        Object::new(3, ObjectID::Villager, (3, 3), &mut world, &grid, &oas),
    ];
    handle_select_object_event(&mut objects, Cell::new(1, 1));
    assert_eq!(objects[0].selectable, None);
    assert_eq!(objects[1].selectable, Some(Selectable { selected: true }));
    assert_eq!(objects[2].selectable, Some(Selectable { selected: false }));
    assert_eq!(objects[3].selectable, Some(Selectable { selected: false }));
    handle_select_object_event(&mut objects, Cell::new(3, 3));
    assert_eq!(objects[1].selectable, Some(Selectable { selected: false }));
    assert_eq!(objects[3].selectable, Some(Selectable { selected: true }));
    handle_select_object_event(&mut objects, Cell::new(4, 4));
    assert!(objects.iter().all(|o| o.selectable != Some(Selectable { selected: true })));
}

#[test]
fn levels_follow_each_other_until_the_last() {
    assert_eq!(LEVEL_COUNT, 11);
    let mut level = Level::new(0);
    assert_eq!(level.maximum, 11);
    assert_eq!(level.next(), AppState::Game);
    assert_eq!(level.current, 1);
    assert_eq!(level.value(), 1);
    let mut level = Level::new(9);
    assert_eq!(level.next(), AppState::Game);
    assert_eq!(level.current, 10);
    assert_eq!(level.next(), AppState::Splash);
    assert_eq!(level.current, 10);
}

#[test]
fn counters_start_at_zero() {
    assert_eq!(TurnCounter::new().turn, 0);
    assert_eq!(TurnCounter::new().value(), 0);
    let score = Score::new();
    assert_eq!((score.previous, score.current), (0, 0));
    assert_eq!(score.value(), 0);
    assert!(!Selectable::new().selected);
}

fn win(turns: usize, showing: bool) -> (usize, Option<Vec<Cell>>) {
    let mut score = Score { previous: 4, current: 20 };
    let counter = TurnCounter { turn: turns };
    let event = PlayerWinEvent::new(vec![Cell::new(0, 0), Cell::new(0, 1), Cell::new(1, 2)]);
    let path = handle_player_win_event(&mut score, &counter, showing, &event);
    assert_eq!(score.previous, 4);
    (score.current, path)
}

#[test]
fn the_bonus_shrinks_with_every_turn_down_to_one() {
    let reversed = Some(vec![Cell::new(1, 2), Cell::new(0, 1), Cell::new(0, 0)]);
    assert_eq!(win(0, false), (30, reversed.clone()));
    assert_eq!(win(3, false), (27, reversed.clone()));
    assert_eq!(win(9, false), (21, reversed.clone()));
    assert_eq!(win(10, false), (21, reversed.clone()));
    assert_eq!(win(11, false), (21, reversed.clone()));
    assert_eq!(win(usize::MAX, false), (21, reversed));
}

#[test]
fn a_win_that_is_being_shown_is_not_counted_again() {
    assert_eq!(win(3, true), (20, None));
}
