use wasm_games::grid::{Cell, Grid};
use wasm_games::table::Table;

#[test]
fn filled_grid_has_its_size_and_cells() {
    let grid = Grid::filled(28, 31, Cell::Wall);
    assert_eq!(grid.width(), 28);
    assert_eq!(grid.height(), 31);
    for y in 0..31 {
        for x in 0..28 {
            assert_eq!(grid.get(x, y), Cell::Wall);
        }
    }
}

#[test]
fn set_changes_one_cell_only() {
    let mut grid = Grid::filled(5, 4, Cell::Wall);
    grid.set(3, 2, Cell::Pellet);
    for y in 0..4 {
        for x in 0..5 {
            let expected = if (x, y) == (3, 2) { Cell::Pellet } else { Cell::Wall };
            assert_eq!(grid.get(x, y), expected);
        }
    }
    grid.set(3, 2, Cell::Open);
    assert_eq!(grid.get(3, 2), Cell::Open);
    assert_eq!(grid.get(2, 3), Cell::Wall);
}

#[test]
fn passable_means_inside_and_not_wall() {
    let mut grid = Grid::filled(4, 3, Cell::Wall);
    grid.set(1, 1, Cell::Open);
    grid.set(2, 1, Cell::Pellet);
    assert!(grid.is_passable(1, 1));
    assert!(grid.is_passable(2, 1));
    assert!(!grid.is_passable(0, 0));
    assert!(!grid.is_passable(4, 1));
    assert!(!grid.is_passable(1, 3));
    assert!(!grid.is_passable(usize::MAX, usize::MAX));
}

#[test]
fn refill_puts_a_pellet_on_every_cell_but_walls() {
    let mut grid = Grid::filled(4, 4, Cell::Wall);
    grid.set(1, 1, Cell::Open);
    grid.set(2, 1, Cell::Pellet);
    grid.set(0, 3, Cell::Open);
    grid.refill();
    assert_eq!(grid.get(1, 1), Cell::Pellet);
    assert_eq!(grid.get(2, 1), Cell::Pellet);
    assert_eq!(grid.get(0, 3), Cell::Pellet);
    assert_eq!(grid.get(0, 0), Cell::Wall);
    assert_eq!(grid.get(3, 3), Cell::Wall);
    assert_eq!(grid.count(Cell::Pellet), 3);
    assert_eq!(grid.count(Cell::Open), 0);
    assert_eq!(grid.count(Cell::Wall), 13);
}

#[test]
fn counts_of_the_three_states_add_up_to_all_cells() {
    let mut grid = Grid::filled(6, 5, Cell::Wall);
    grid.set(1, 1, Cell::Open);
    grid.set(2, 2, Cell::Open);
    grid.set(3, 3, Cell::Pellet);
    assert_eq!(grid.count(Cell::Open), 2);
    assert_eq!(grid.count(Cell::Pellet), 1);
    assert_eq!(grid.count(Cell::Wall), 27);
    assert_eq!(
        grid.count(Cell::Wall) + grid.count(Cell::Open) + grid.count(Cell::Pellet),
        6 * 5
    );
}

#[test]
fn empty_grid_counts_nothing() {
    let grid = Grid::filled(0, 0, Cell::Wall);
    assert_eq!(grid.width(), 0);
    assert_eq!(grid.height(), 0);
    assert_eq!(grid.count(Cell::Wall), 0);
    assert!(!grid.is_passable(0, 0));
}

#[test]
fn table_keeps_what_was_put() {
    let mut table: Table<Option<(usize, usize)>> = Table::filled(3, 2, None);
    assert_eq!(table.width(), 3);
    assert_eq!(table.height(), 2);
    table.set(2, 1, Some((7, 9)));
    assert_eq!(table.get(2, 1), Some((7, 9)));
    assert_eq!(table.get(1, 1), None);
    assert_eq!(table.get(2, 0), None);
}
