use alien_architect::asset::{footprint_cells, footprint_point, ObjectAssetServer, ObjectConf};
use alien_architect::grid::{Cell, Grid};
use alien_architect::kind::ObjectID;

fn conf(id: ObjectID, name: &str, occupy: &[(i32, i32)]) -> ObjectConf {
    ObjectConf {
        id,
        name: name.to_string(),
        selectable: false,
        animated: false,
        occupy: occupy.iter().map(|&(x, y)| Cell::new(x, y)).collect(),
        offset: Cell::new(3, -2),
    }
}

#[test]
fn server_holds_one_configuration_per_kind() {
    let mut oas = ObjectAssetServer::new();
    assert!(!oas.contains(ObjectID::Farm));
    assert!(oas.find(ObjectID::Farm).is_none());
    oas.insert(conf(ObjectID::Farm, "Farm", &[(0, 0)]));
    oas.insert(conf(ObjectID::Cow, "Cow", &[(0, 0)]));
    assert!(oas.contains(ObjectID::Farm));
    assert!(oas.contains(ObjectID::Cow));
    assert!(!oas.contains(ObjectID::King));
    assert_eq!(oas.get(ObjectID::Farm).name, "Farm");
    assert_eq!(oas.get(ObjectID::Cow).id, ObjectID::Cow);
    assert_eq!(oas.find(ObjectID::Cow).map(|c| c.offset), Some(Cell::new(3, -2)));
}

#[test]
fn a_later_configuration_replaces_the_earlier_one() {
    let mut oas = ObjectAssetServer::new();
    oas.insert(conf(ObjectID::Farm, "Farm", &[(0, 0)]));
    oas.insert(conf(ObjectID::Cow, "Cow", &[(0, 0)]));
    oas.insert(conf(ObjectID::Farm, "Big farm", &[(0, 0), (1, 0)]));
    assert_eq!(oas.get(ObjectID::Farm).name, "Big farm");
    assert_eq!(oas.get(ObjectID::Farm).occupy.len(), 2);
    assert_eq!(oas.get(ObjectID::Cow).name, "Cow");
}

#[test]
fn footprint_shifts_all_but_the_anchor_on_odd_rows() {
    let offsets = vec![Cell::new(0, 0), Cell::new(1, 0), Cell::new(0, 1), Cell::new(-1, 2)];
    assert_eq!(footprint_point(2, 4, &offsets, 0), (2, 4));
    assert_eq!(footprint_point(2, 4, &offsets, 1), (3, 4));
    assert_eq!(footprint_point(2, 4, &offsets, 2), (2, 5));
    assert_eq!(footprint_point(2, 4, &offsets, 3), (1, 6));
    assert_eq!(footprint_point(2, 5, &offsets, 0), (2, 5));
    assert_eq!(footprint_point(2, 5, &offsets, 1), (4, 5));
    assert_eq!(footprint_point(2, 5, &offsets, 2), (3, 6));
    assert_eq!(footprint_point(2, 5, &offsets, 3), (2, 7));
}

#[test]
fn footprint_cells_are_listed_only_within_the_board() {
    let grid = Grid::new((5, 9), (0, 0), (30, 18), (2, 4));
    let offsets = vec![Cell::new(0, 0), Cell::new(1, 0)];
    assert_eq!(
        footprint_cells(3, 2, &offsets, &grid),
        Some(vec![Cell::new(3, 2), Cell::new(4, 2)])
    );
    assert_eq!(footprint_cells(3, 3, &offsets, &grid), None);
    assert_eq!(footprint_cells(4, 2, &offsets, &grid), None);
    assert_eq!(footprint_cells(-1, 2, &offsets, &grid), None);
    assert_eq!(footprint_cells(0, 9, &offsets, &grid), None);
    assert_eq!(footprint_cells(7, 7, &Vec::new(), &grid), Some(Vec::new()));
}
