use alien_architect::adjacency::{get_adjacent, get_diagonal_adjacent};
use alien_architect::grid::Cell;

#[test]
fn adjacent_table_on_even_row() {
    let table = get_adjacent(Cell::new(3, 4));
    assert_eq!(
        table,
        [(0, 0), (0, 2), (0, -2), (1, 0), (-1, 0), (0, 1), (0, -1), (-1, 1), (-1, -1)]
    );
}

#[test]
fn adjacent_table_on_odd_row() {
    let table = get_adjacent(Cell::new(3, 5));
    assert_eq!(
        table,
        [(0, 0), (0, 2), (0, -2), (1, 0), (-1, 0), (1, 1), (1, -1), (0, 1), (0, -1)]
    );
}

#[test]
fn adjacent_tables_have_nine_entries_and_differ_by_parity() {
    let even = get_adjacent(Cell::new(0, 0));
    let odd = get_adjacent(Cell::new(0, 1));
    assert_eq!(even.len(), 9);
    assert_eq!(odd.len(), 9);
    assert_ne!(even, odd);
}

#[test]
fn adjacent_tables_mirror_each_other() {
    let even = get_adjacent(Cell::new(2, 2));
    let odd = get_adjacent(Cell::new(2, 3));
    for (dx, dy) in even {
        assert!(odd.contains(&(-dx, dy)));
    }
    for (dx, dy) in odd {
        assert!(even.contains(&(-dx, dy)));
    }
}

#[test]
fn adjacency_is_mutual_on_the_board() {
    for y in 2..7 {
        for x in 2..5 {
            for (dx, dy) in get_adjacent(Cell::new(x, y)) {
                let other = Cell::new(x + dx, y + dy);
                let back = get_adjacent(other);
                assert!(back.contains(&(-dx, -dy)), "({}, {}) and its neighbour", x, y);
            }
        }
    }
}

#[test]
fn diagonal_table_by_parity() {
    assert_eq!(get_diagonal_adjacent(Cell::new(1, 6)), [(0, 1), (0, -1), (-1, 1), (-1, -1)]);
    assert_eq!(get_diagonal_adjacent(Cell::new(1, 7)), [(1, 1), (1, -1), (0, 1), (0, -1)]);
}

#[test]
fn diagonal_table_is_not_the_adjacent_table() {
    let position = Cell::new(1, 6);
    let all = get_adjacent(position);
    let diagonal = get_diagonal_adjacent(position);
    assert_eq!(diagonal.len(), 4);
    for offset in diagonal {
        assert!(all.contains(&offset));
        assert_ne!(offset, (0, 0));
    }
    assert!(!diagonal.contains(&(1, 0)));
    assert!(!diagonal.contains(&(0, 2)));
}

#[test]
fn parity_above_the_board_keeps_the_sign_of_the_row() {
    assert_eq!(get_diagonal_adjacent(Cell::new(0, -1)), [(-1, 1), (-1, -1), (-2, 1), (-2, -1)]);
    assert_eq!(get_diagonal_adjacent(Cell::new(0, -2)), [(0, 1), (0, -1), (-1, 1), (-1, -1)]);
}
