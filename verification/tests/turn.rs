use alien_architect::asset::{ObjectAssetServer, ObjectConf};
use alien_architect::grid::{Cell, Grid};
use alien_architect::kind::ObjectID;
use alien_architect::object::Object;
use alien_architect::path::{is_goal, king_successors};
use alien_architect::turn::{
    bury, cells_of_nodes, find_castle_slot, find_path, get_entities_to_kill,
    handle_objects_act_turns_event, king_is_killed, move_to_random_adjacent_tile, note_win,
    resolve_turn, roam, route_found, try_step, PlayerWinEvent,
};
use alien_architect::world::World;

fn board() -> Grid {
    Grid::new((5, 9), (-5, 35), (30, 18), (2, 4))
}

fn server() -> ObjectAssetServer {
    let mut oas = ObjectAssetServer::new();
    for id in [
        ObjectID::King,
        ObjectID::Villager,
        ObjectID::Cow,
        ObjectID::Assassin,
        ObjectID::Castle,
        ObjectID::Mountain,
        ObjectID::House,
    ] {
        oas.insert(ObjectConf {
            id,
            name: format!("{:?}", id),
            selectable: false,
            animated: false,
            occupy: vec![Cell::new(0, 0)],
            offset: Cell::new(0, 0),
        });
    }
    oas
}

fn setup(lines: &[(ObjectID, u32, u32)]) -> (Grid, World, Vec<Object>) {
    let grid = board();
    let mut world = World::new(&grid);
    let oas = server();
    let mut objects = Vec::new();
    for (entity, &(id, x, y)) in lines.iter().enumerate() {
        objects.push(Object::new(entity as u64, id, (x, y), &mut world, &grid, &oas));
    }
    (grid, world, objects)
}

fn cells(list: &[(i32, i32)]) -> Vec<Cell> {
    list.iter().map(|&(x, y)| Cell::new(x, y)).collect()
}

fn diagonal(from: Cell) -> Vec<Cell> {
    let p = from.y % 2;
    cells(&[
        (from.x + p, from.y + 1),
        (from.x + p, from.y - 1),
        (from.x + p - 1, from.y + 1),
        (from.x + p - 1, from.y - 1),
    ])
}

#[test]
fn the_king_finds_the_shortest_way_to_the_castle() {
    let (grid, world, objects) = setup(&[(ObjectID::King, 0, 0), (ObjectID::Castle, 4, 8)]);
    let (path, cost) = find_path(&objects[0], &world, &grid).unwrap();
    assert_eq!(cost, 8);
    assert_eq!(path.len(), 9);
    for (i, cell) in path.iter().enumerate() {
        assert!(!path[..i].contains(cell));
    }
    assert_eq!(
        path,
        cells(&[(0, 0), (0, 1), (1, 2), (1, 3), (2, 4), (2, 5), (3, 6), (3, 7), (4, 8)])
    );
}

#[test]
fn the_king_finds_no_way_to_a_walled_in_castle() {
    let (grid, world, objects) = setup(&[
        (ObjectID::King, 0, 0),
        (ObjectID::Castle, 2, 4),
        (ObjectID::Mountain, 2, 5),
        (ObjectID::Mountain, 2, 3),
        (ObjectID::Mountain, 1, 5),
        (ObjectID::Mountain, 1, 3),
    ]);
    assert_eq!(find_path(&objects[0], &world, &grid), None);
}

#[test]
fn the_king_walks_around_what_stands_in_its_way() {
    let (grid, world, objects) = setup(&[
        (ObjectID::King, 2, 2),
        (ObjectID::Castle, 2, 4),
        (ObjectID::Mountain, 2, 3),
        (ObjectID::House, 1, 3),
    ]);
    let (path, cost) = find_path(&objects[0], &world, &grid).unwrap();
    assert_eq!(cost, 6);
    assert_eq!(path.len(), 7);
    assert_eq!(path[0], Cell::new(2, 2));
    assert_eq!(path[6], Cell::new(2, 4));
    for pair in path.windows(2) {
        assert!(diagonal(pair[0]).contains(&pair[1]));
        let kind = world.occupant_at(pair[1]).map(|o| o.1);
        assert!(kind.is_none() || kind == Some(ObjectID::Castle));
    }
}

#[test]
fn a_king_on_the_goal_has_arrived() {
    let (grid, world, objects) = setup(&[(ObjectID::King, 0, 0)]);
    assert_eq!(find_castle_slot(&world, &grid), Cell::new(0, 0));
    assert_eq!(find_path(&objects[0], &world, &grid), Some((cells(&[(0, 0)]), 0)));
}

#[test]
fn holes_in_the_board_block_the_king() {
    let (mut grid, world, objects) = setup(&[(ObjectID::King, 0, 0), (ObjectID::Castle, 0, 2)]);
    assert_eq!(find_path(&objects[0], &world, &grid).unwrap().1, 2);
    grid.walkable[5] = false;
    assert_eq!(find_path(&objects[0], &world, &grid), None);
}

#[test]
fn successors_are_the_open_diagonal_cells() {
    let (grid, world, _) = setup(&[
        (ObjectID::King, 2, 5),
        (ObjectID::Castle, 2, 3),
        (ObjectID::Mountain, 1, 5),
    ]);
    assert_eq!(
        king_successors(2, 4, &world, &grid),
        vec![((2, 5), 1), ((2, 3), 1), ((1, 3), 1)]
    );
    assert_eq!(king_successors(0, 0, &world, &grid), vec![((0, 1), 1)]);
    assert_eq!(king_successors(4, 9, &world, &grid), vec![((4, 8), 1)]);
    assert_eq!(king_successors(9, 9, &world, &grid), Vec::new());
    assert!(is_goal(2, 3, (2, 3)));
    assert!(!is_goal(3, 2, (2, 3)));
}

#[test]
fn the_assassin_kills_what_stands_one_diagonal_step_away() {
    let (grid, mut world, objects) = setup(&[
        (ObjectID::Assassin, 2, 4),
        (ObjectID::Cow, 1, 5),
        (ObjectID::Villager, 2, 5),
        (ObjectID::Mountain, 2, 3),
        (ObjectID::King, 3, 4),
        (ObjectID::Villager, 2, 6),
        (ObjectID::King, 1, 3),
    ]);
    let targets = get_entities_to_kill(&mut world, &objects[0], &grid);
    assert_eq!(targets, vec![2, 1, 6]);
    assert_eq!(world.occupant_at(Cell::new(1, 5)), None);
    assert_eq!(world.occupant_at(Cell::new(2, 5)), None);
    assert_eq!(world.occupant_at(Cell::new(1, 3)), None);
    assert_eq!(world.occupant_at(Cell::new(2, 3)), Some((3, ObjectID::Mountain)));
    assert_eq!(world.occupant_at(Cell::new(3, 4)), Some((4, ObjectID::King)));
    assert_eq!(world.occupant_at(Cell::new(2, 6)), Some((5, ObjectID::Villager)));
    assert_eq!(world.occupant_at(Cell::new(2, 4)), Some((0, ObjectID::Assassin)));
}

#[test]
fn a_king_next_to_an_assassin_is_killed_when_the_turn_ends() {
    let (grid, mut world, mut objects) = setup(&[
        (ObjectID::King, 1, 3),
        (ObjectID::Castle, 4, 8),
        (ObjectID::Assassin, 2, 4),
    ]);
    let outcome = handle_objects_act_turns_event(&mut objects, &mut world, &grid);
    assert_eq!(outcome.killed, vec![0]);
    assert!(outcome.king_killed);
    assert_eq!(objects.len(), 2);
    assert!(objects.iter().all(|o| o.id != ObjectID::King));
    assert_eq!(objects[0].entity, 1);
    assert_eq!(objects[1].entity, 2);
    assert_eq!(world.occupant_at(Cell::new(1, 3)), None);
    assert_eq!(world.occupant_at(Cell::new(2, 4)), Some((2, ObjectID::Assassin)));
}

#[test]
fn the_turn_reports_the_way_of_the_king() {
    let (grid, mut world, mut objects) = setup(&[
        (ObjectID::Castle, 4, 8),
        (ObjectID::Mountain, 2, 2),
        (ObjectID::King, 0, 0),
    ]);
    let slots = world.objects.clone();
    let outcome = handle_objects_act_turns_event(&mut objects, &mut world, &grid);
    assert_eq!(outcome.killed, Vec::new());
    assert!(!outcome.king_killed);
    assert_eq!(outcome.wins.len(), 1);
    assert_eq!(
        outcome.wins[0].path,
        cells(&[(0, 0), (0, 1), (1, 2), (1, 3), (2, 4), (2, 5), (3, 6), (3, 7), (4, 8)])
    );
    assert_eq!(world.objects, slots);
    assert_eq!(objects.len(), 3);
}

#[test]
fn no_way_means_no_win() {
    let (grid, mut world, mut objects) = setup(&[
        (ObjectID::Castle, 0, 0),
        (ObjectID::Mountain, 0, 1),
        (ObjectID::King, 4, 8),
    ]);
    let outcome = resolve_turn(&mut objects, &mut world, &grid);
    assert!(outcome.wins.is_empty());
    assert!(outcome.killed.is_empty());
    assert_eq!(objects.len(), 3);
}

#[test]
fn a_step_is_taken_only_onto_a_free_cell_of_the_board() {
    let (grid, mut world, mut objects) = setup(&[
        (ObjectID::Villager, 2, 4),
        (ObjectID::Mountain, 2, 3),
    ]);
    let mut villager = objects.remove(0);
    assert!(!try_step(0, &mut villager, &mut world, &grid, 1));
    assert_eq!(villager.occupied, cells(&[(2, 4)]));
    assert_eq!(world.occupant_at(Cell::new(2, 4)), Some((0, ObjectID::Villager)));
    assert!(try_step(0, &mut villager, &mut world, &grid, 2));
    assert_eq!(villager.occupied, cells(&[(1, 5)]));
    assert_eq!(world.occupant_at(Cell::new(1, 5)), Some((0, ObjectID::Villager)));
    assert_eq!(world.occupant_at(Cell::new(2, 4)), None);
    assert!(try_step(0, &mut villager, &mut world, &grid, 0));
    assert_eq!(villager.occupied, cells(&[(2, 6)]));
    assert!(try_step(0, &mut villager, &mut world, &grid, 3));
    assert_eq!(villager.occupied, cells(&[(1, 5)]));
    assert_eq!(world.objects.iter().filter(|slot| slot.is_some()).count(), 2);
}

#[test]
fn a_step_off_the_board_is_not_taken() {
    let (grid, mut world, mut objects) = setup(&[(ObjectID::Cow, 0, 0), (ObjectID::Cow, 4, 8)]);
    for choice in [1, 2, 3] {
        assert!(!try_step(0, &mut objects[0], &mut world, &grid, choice));
    }
    assert!(!try_step(1, &mut objects[1], &mut world, &grid, 0));
    assert!(!try_step(1, &mut objects[1], &mut world, &grid, 2));
    assert!(try_step(0, &mut objects[0], &mut world, &grid, 0));
    assert_eq!(objects[0].occupied, cells(&[(0, 1)]));
}

#[test]
fn a_creature_stays_or_lands_on_a_free_diagonal_cell() {
    let mut moved = 0;
    let mut stayed = 0;
    for _ in 0..300 {
        let (grid, mut world, mut objects) = setup(&[
            (ObjectID::Villager, 2, 4),
            (ObjectID::Mountain, 2, 5),
            (ObjectID::Mountain, 1, 3),
        ]);
        let before = world.objects.clone();
        let result = move_to_random_adjacent_tile(0, &mut objects[0], &mut world, &grid);
        if result {
            moved += 1;
            assert_eq!(objects[0].occupied.len(), 1);
            let at = objects[0].occupied[0];
            assert!(at == Cell::new(2, 3) || at == Cell::new(1, 5), "{:?}", at);
            assert_eq!(world.occupant_at(at), Some((0, ObjectID::Villager)));
            assert_eq!(world.occupant_at(Cell::new(2, 4)), None);
            assert_eq!(world.objects.iter().filter(|slot| slot.is_some()).count(), 3);
        } else {
            stayed += 1;
            assert_eq!(objects[0].occupied, cells(&[(2, 4)]));
            assert_eq!(world.objects, before);
        }
    }
    assert!(moved > 0);
    assert!(stayed > 0);
}

#[test]
fn a_creature_with_nowhere_to_go_stays() {
    for _ in 0..50 {
        let (grid, mut world, mut objects) = setup(&[
            (ObjectID::Cow, 0, 0),
            (ObjectID::Mountain, 0, 1),
        ]);
        let before = world.objects.clone();
        assert!(!move_to_random_adjacent_tile(0, &mut objects[0], &mut world, &grid));
        assert_eq!(world.objects, before);
        assert_eq!(objects[0].occupied, cells(&[(0, 0)]));
    }
}

#[test]
fn only_the_creatures_of_the_kind_roam() {
    for _ in 0..50 {
        let (grid, mut world, mut objects) = setup(&[
            (ObjectID::Villager, 2, 4),
            (ObjectID::Cow, 3, 6),
            (ObjectID::King, 0, 0),
            (ObjectID::House, 4, 4),
        ]);
        roam(ObjectID::Cow, &mut objects, &mut world, &grid);
        assert_eq!(objects[0].occupied, cells(&[(2, 4)]));
        assert_eq!(objects[2].occupied, cells(&[(0, 0)]));
        assert_eq!(objects[3].occupied, cells(&[(4, 4)]));
        let cow = objects[1].occupied[0];
        assert!(cow == Cell::new(3, 6) || diagonal(Cell::new(3, 6)).contains(&cow));
        assert_eq!(world.occupant_at(cow), Some((1, ObjectID::Cow)));
        assert_eq!(world.objects.iter().filter(|slot| slot.is_some()).count(), 4);
    }
}

#[test]
fn a_whole_turn_keeps_the_board_and_the_objects_in_step() {
    for _ in 0..100 {
        let (grid, mut world, mut objects) = setup(&[
            (ObjectID::King, 0, 0),
            (ObjectID::Castle, 4, 8),
            (ObjectID::Villager, 2, 4),
            (ObjectID::Cow, 3, 6),
            (ObjectID::Assassin, 2, 6),
            (ObjectID::Mountain, 1, 2),
        ]);
        let outcome = handle_objects_act_turns_event(&mut objects, &mut world, &grid);
        assert!(!outcome.king_killed);
        for entity in &outcome.killed {
            assert!(*entity == 2 || *entity == 3);
            assert!(objects.iter().all(|o| o.entity != *entity));
        }
        assert_eq!(objects.len() + outcome.killed.len(), 6);
        for object in &objects {
            assert_eq!(object.occupied.len(), 1);
            assert_eq!(world.occupant_at(object.occupied[0]), Some((object.entity, object.id)));
        }
        assert_eq!(world.objects.iter().filter(|slot| slot.is_some()).count(), objects.len());
        assert_eq!(outcome.wins.len(), 1);
        let path = &outcome.wins[0].path;
        assert_eq!(path[0], Cell::new(0, 0));
        assert_eq!(path[path.len() - 1], Cell::new(4, 8));
        assert!(path.len() >= 9);
        for pair in path.windows(2) {
            assert!(diagonal(pair[0]).contains(&pair[1]));
        }
    }
}

#[test]
fn the_killed_are_taken_out_in_order() {
    let (_, _, mut objects) = setup(&[
        (ObjectID::King, 0, 0),
        (ObjectID::Villager, 1, 1),
        (ObjectID::Cow, 2, 2),
        (ObjectID::Villager, 3, 3),
    ]);
    assert!(king_is_killed(&objects, &vec![2, 0, 7]));
    assert!(!king_is_killed(&objects, &vec![2, 1, 7]));
    bury(&mut objects, &vec![2, 0, 7]);
    assert_eq!(objects.iter().map(|o| o.entity).collect::<Vec<u64>>(), vec![1, 3]);
    bury(&mut objects, &Vec::new());
    assert_eq!(objects.len(), 2);
}

#[test]
fn a_found_path_becomes_a_way_over_cells() {
    let nodes = vec![(0, 0), (0, 1), (1, 2)];
    assert_eq!(cells_of_nodes(&nodes), cells(&[(0, 0), (0, 1), (1, 2)]));
    assert_eq!(cells_of_nodes(&Vec::new()), Vec::new());
    assert_eq!(route_found(Some((nodes, 2))), Some((cells(&[(0, 0), (0, 1), (1, 2)]), 2)));
    assert_eq!(route_found(None), None);
}

#[test]
fn a_way_is_noted_as_a_win() {
    let mut wins: Vec<PlayerWinEvent> = Vec::new();
    note_win(&mut wins, None);
    assert!(wins.is_empty());
    note_win(&mut wins, Some((cells(&[(0, 0), (0, 1)]), 1)));
    note_win(&mut wins, None);
    note_win(&mut wins, Some((cells(&[(3, 3)]), 0)));
    assert_eq!(wins.len(), 2);
    assert_eq!(wins[0].path, cells(&[(0, 0), (0, 1)]));
    assert_eq!(wins[1].path, cells(&[(3, 3)]));
}

#[test]
fn the_same_board_gives_the_same_way() {
    let (grid, world, objects) = setup(&[
        (ObjectID::King, 2, 0),
        (ObjectID::Castle, 2, 8),
        (ObjectID::Mountain, 2, 4),
    ]);
    let first = find_path(&objects[0], &world, &grid).unwrap();
    assert_eq!(first.1, 8);
    for _ in 0..20 {
        assert_eq!(find_path(&objects[0], &world, &grid).as_ref(), Some(&first));
    }
}
