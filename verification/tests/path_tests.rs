use wasm_games::grid::{Cell, Grid};
use wasm_games::path::{neighbor, step_at, step_between};
use wasm_games::pathfinder::shortest_first_step;

fn walls_with_openings(width: usize, height: usize, open: &[(usize, usize)]) -> Grid {
    let mut grid = Grid::filled(width, height, Cell::Wall);
    for &(x, y) in open {
        grid.set(x, y, Cell::Open);
    }
    grid
}

fn open_room(width: usize, height: usize) -> Grid {
    let mut grid = Grid::filled(width, height, Cell::Wall);
    for y in 1..height - 1 {
        for x in 1..width - 1 {
            grid.set(x, y, Cell::Pellet);
        }
    }
    grid
}

#[test]
fn unit_steps_come_in_search_order() {
    assert_eq!(step_at(0), (0, -1));
    assert_eq!(step_at(1), (0, 1));
    assert_eq!(step_at(2), (-1, 0));
    assert_eq!(step_at(3), (1, 0));
}

#[test]
fn neighbor_stops_at_the_edges() {
    let grid = Grid::filled(4, 3, Cell::Wall);
    assert_eq!(neighbor(&grid, (0, 0), (0, -1)), None);
    assert_eq!(neighbor(&grid, (0, 0), (-1, 0)), None);
    assert_eq!(neighbor(&grid, (3, 2), (1, 0)), None);
    assert_eq!(neighbor(&grid, (3, 2), (0, 1)), None);
    assert_eq!(neighbor(&grid, (1, 1), (1, 0)), Some((2, 1)));
    assert_eq!(neighbor(&grid, (1, 1), (0, -1)), Some((1, 0)));
    assert_eq!(neighbor(&grid, (1, 1), (0, 0)), Some((1, 1)));
    assert_eq!(neighbor(&grid, (1, 1), (2, 0)), Some((3, 1)));
    assert_eq!(neighbor(&grid, (1, 1), (3, 0)), None);
    assert_eq!(neighbor(&grid, (1, 1), (i32::MIN, i32::MAX)), None);
}

#[test]
fn step_between_names_the_unit_step() {
    assert_eq!(step_between((5, 5), (5, 4)), (0, -1));
    assert_eq!(step_between((5, 5), (5, 6)), (0, 1));
    assert_eq!(step_between((5, 5), (4, 5)), (-1, 0));
    assert_eq!(step_between((5, 5), (6, 5)), (1, 0));
}

#[test]
fn straight_corridor_is_walked_down() {
    let grid = walls_with_openings(28, 31, &[(5, 5), (5, 6), (5, 7), (5, 8)]);
    assert_eq!(shortest_first_step(&grid, (5, 5), (5, 8)), Some((0, 1)));
    assert_eq!(shortest_first_step(&grid, (5, 8), (5, 5)), Some((0, -1)));
    assert_eq!(shortest_first_step(&grid, (5, 6), (5, 7)), Some((0, 1)));
}

#[test]
fn no_step_to_where_one_stands() {
    let grid = open_room(7, 7);
    assert_eq!(shortest_first_step(&grid, (3, 3), (3, 3)), None);
}

#[test]
fn no_step_to_what_is_out_of_reach() {
    let grid = walls_with_openings(9, 9, &[(2, 2), (3, 2), (6, 6)]);
    assert_eq!(shortest_first_step(&grid, (2, 2), (6, 6)), None);
    assert_eq!(shortest_first_step(&grid, (6, 6), (2, 2)), None);
}

#[test]
fn no_step_to_a_wall() {
    let grid = open_room(7, 7);
    assert_eq!(shortest_first_step(&grid, (3, 3), (0, 0)), None);
    assert_eq!(shortest_first_step(&grid, (1, 1), (0, 1)), None);
}

#[test]
fn equally_short_walks_begin_with_the_first_step_in_search_order() {
    let grid = open_room(7, 7);
    assert_eq!(shortest_first_step(&grid, (3, 3), (2, 2)), Some((0, -1)));
    assert_eq!(shortest_first_step(&grid, (3, 3), (4, 2)), Some((0, -1)));
    assert_eq!(shortest_first_step(&grid, (3, 3), (2, 4)), Some((0, 1)));
    assert_eq!(shortest_first_step(&grid, (3, 3), (4, 4)), Some((0, 1)));
    assert_eq!(shortest_first_step(&grid, (3, 3), (1, 3)), Some((-1, 0)));
    assert_eq!(shortest_first_step(&grid, (3, 3), (5, 3)), Some((1, 0)));
}

#[test]
fn the_shorter_of_two_ways_is_taken() {
    // A ring around a block of walls: from (1, 1) the cell (3, 2) is three
    // steps away to the right and down, five steps down and around.
    let mut grid = open_room(5, 5);
    grid.set(2, 2, Cell::Wall);
    assert_eq!(shortest_first_step(&grid, (1, 1), (3, 2)), Some((1, 0)));
    assert_eq!(shortest_first_step(&grid, (1, 1), (2, 3)), Some((0, 1)));
    assert_eq!(shortest_first_step(&grid, (1, 2), (3, 2)), Some((0, -1)));
}

#[test]
fn the_walk_goes_round_a_wall() {
    let grid = walls_with_openings(
        7,
        7,
        &[(1, 1), (1, 2), (1, 3), (2, 3), (3, 3), (3, 2), (3, 1)],
    );
    assert_eq!(shortest_first_step(&grid, (1, 1), (3, 1)), Some((0, 1)));
    assert_eq!(shortest_first_step(&grid, (1, 3), (3, 1)), Some((1, 0)));
    assert_eq!(shortest_first_step(&grid, (3, 3), (3, 1)), Some((0, -1)));
}

#[test]
fn a_search_may_start_on_a_wall() {
    let grid = walls_with_openings(7, 7, &[(3, 2), (3, 1)]);
    assert_eq!(grid.get(3, 3), Cell::Wall);
    assert_eq!(shortest_first_step(&grid, (3, 3), (3, 1)), Some((0, -1)));
}

#[test]
fn the_first_step_never_leads_onto_a_wall() {
    let mut grid = open_room(9, 8);
    grid.set(4, 1, Cell::Wall);
    grid.set(4, 2, Cell::Wall);
    grid.set(4, 3, Cell::Wall);
    grid.set(2, 5, Cell::Wall);
    for sy in 0..8 {
        for sx in 0..9 {
            for ty in 0..8 {
                for tx in 0..9 {
                    if let Some(step) = shortest_first_step(&grid, (sx, sy), (tx, ty)) {
                        let to = neighbor(&grid, (sx, sy), step);
                        assert!(matches!(to, Some(_)));
                        let (x, y) = to.unwrap_or((0, 0));
                        assert_ne!(grid.get(x, y), Cell::Wall);
                        assert_eq!(step.0.abs() + step.1.abs(), 1);
                    }
                }
            }
        }
    }
}
