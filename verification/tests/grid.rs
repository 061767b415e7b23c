use alien_architect::grid::{validate_position, Cell, Grid};

fn board() -> Grid {
    Grid::new((5, 9), (-5, 35), (30, 18), (2, 4))
}

#[test]
fn new_grid_is_all_walkable() {
    let grid = board();
    assert_eq!(grid.walkable.len(), 45);
    assert!(grid.walkable.iter().all(|w| *w));
}

#[test]
fn out_of_bounds_cells_are_never_walkable() {
    let grid = board();
    assert!(!grid.is_walkable(Cell::new(-1, 0)));
    assert!(!grid.is_walkable(Cell::new(0, -1)));
    assert!(!grid.is_walkable(Cell::new(5, 0)));
    assert!(!grid.is_walkable(Cell::new(0, 9)));
    assert!(grid.is_walkable(Cell::new(4, 8)));
    assert!(!grid.in_bounds(Cell::new(5, 8)));
    assert!(grid.in_bounds(Cell::new(0, 0)));
}

#[test]
fn validate_position_gives_row_major_index() {
    let mut grid = board();
    assert_eq!(validate_position(Cell::new(3, 2), &grid), (true, 13));
    grid.walkable[13] = false;
    assert_eq!(validate_position(Cell::new(3, 2), &grid), (false, 13));
    assert_eq!(validate_position(Cell::new(7, 2), &grid), (false, 0));
}

#[test]
fn cell_order_counts_down_from_total() {
    let grid = board();
    assert_eq!(grid.cell_order(Cell::new(0, 0)), 45);
    assert_eq!(grid.cell_order(Cell::new(4, 8)), 1);
    assert_eq!(grid.cell_order(Cell::new(3, 2)), 32);
}

#[test]
fn cell_to_world_staggers_odd_rows() {
    let grid = board();
    assert_eq!(grid.cell_to_world(Cell::new(0, 0)), (-5, 35));
    assert_eq!(grid.cell_to_world(Cell::new(1, 0)), (23, 35));
    assert_eq!(grid.cell_to_world(Cell::new(0, 1)), (9, 42));
    assert_eq!(grid.cell_to_world(Cell::new(2, 3)), (65, 56));
    assert_eq!(grid.cell_to_world(Cell::new(4, 8)), (107, 91));
}

#[test]
fn world_to_cell_undoes_cell_to_world_on_every_cell() {
    let grid = board();
    for y in 0..9 {
        for x in 0..5 {
            let cell = Cell::new(x, y);
            let at = grid.cell_to_world(cell);
            assert_eq!(grid.world_to_cell(at), Some(cell));
        }
    }
}

#[test]
fn world_to_cell_finds_nothing_between_cells() {
    let grid = board();
    assert_eq!(grid.world_to_cell((-4, 35)), None);
    assert_eq!(grid.world_to_cell((-5, 36)), None);
    assert_eq!(grid.world_to_cell((-33, 35)), None);
    assert_eq!(grid.world_to_cell((-5, 98)), None);
    assert_eq!(grid.world_to_cell((135, 35)), None);
}

#[test]
fn cell_center_offset_is_half_the_visible_cell() {
    let grid = board();
    assert_eq!(grid.cell_center_offset(), (15, 11));
}

#[test]
fn setup_grid_carves_the_head_of_even_rows() {
    let grid = alien_architect::grid::setup_grid();
    assert_eq!(grid.size, (5, 9));
    assert_eq!(grid.offset, (-5, 35));
    assert_eq!(grid.cell_size, (30, 18));
    assert_eq!(grid.cell_offset, (2, 4));
    for y in 0..9 {
        for x in 0..5 {
            let expected = !(y % 2 == 0 && x == 0);
            assert_eq!(grid.is_walkable(Cell::new(x, y)), expected, "cell ({}, {})", x, y);
        }
    }
}

#[test]
fn cell_at_inverts_the_index() {
    let grid = board();
    assert_eq!(grid.cell_at(0), Cell::new(0, 0));
    assert_eq!(grid.cell_at(13), Cell::new(3, 2));
    assert_eq!(grid.cell_at(44), Cell::new(4, 8));
}
