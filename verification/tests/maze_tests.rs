use std::collections::VecDeque;
use wasm_games::grid::{Cell, Grid};
use wasm_games::maze::{
    all_leaps, carve_around, carve_toward, count_extra_openings, generate, half_leap, open_wall,
    seed_pellets,
};
use wasm_games::pathfinder::shortest_first_step;

fn cells_of(grid: &Grid) -> Vec<Cell> {
    let mut cells = Vec::new();
    for y in 0..grid.height() {
        for x in 0..grid.width() {
            cells.push(grid.get(x, y));
        }
    }
    cells
}

fn assert_fresh(grid: &Grid, width: usize, height: usize) {
    assert_eq!(grid.width(), width);
    assert_eq!(grid.height(), height);
    for y in 0..height {
        for x in 0..width {
            let cell = grid.get(x, y);
            let ring = x == 0 || y == 0 || x == width - 1 || y == height - 1;
            if ring {
                assert_eq!(cell, Cell::Wall);
            }
            assert_ne!(cell, Cell::Open);
            if !ring && x % 2 == 0 && y % 2 == 0 {
                assert_eq!(cell, Cell::Pellet);
            }
        }
    }
    assert_eq!(grid.count(Cell::Open), 0);
    assert_eq!(grid.count(Cell::Wall) + grid.count(Cell::Pellet), width * height);
}

#[test]
fn leaps_are_two_cells_long() {
    assert_eq!(all_leaps(), vec![(0, -2), (0, 2), (-2, 0), (2, 0)]);
    assert_eq!(half_leap((0, -2)), (0, -1));
    assert_eq!(half_leap((0, 2)), (0, 1));
    assert_eq!(half_leap((-2, 0)), (-1, 0));
    assert_eq!(half_leap((2, 0)), (1, 0));
}

#[test]
fn extra_openings_are_a_rounded_share_of_the_cells() {
    assert_eq!(count_extra_openings(28, 31, 80), 694);
    assert_eq!(count_extra_openings(28, 31, 0), 0);
    assert_eq!(count_extra_openings(28, 31, 100), 868);
    assert_eq!(count_extra_openings(28, 31, 250), 2170);
    assert_eq!(count_extra_openings(3, 5, 50), 8);
    assert_eq!(count_extra_openings(3, 5, 10), 2);
    assert_eq!(count_extra_openings(3, 3, 5), 0);
    assert_eq!(count_extra_openings(1, 1, 49), 0);
    assert_eq!(count_extra_openings(1, 1, 50), 1);
    assert_eq!(count_extra_openings(0, 31, 80), 0);
}

#[test]
fn extra_openings_do_not_overflow() {
    let count = count_extra_openings(usize::MAX, 1, u32::MAX);
    let expected = ((usize::MAX as u128) * (u32::MAX as u128) + 50) / 100;
    assert_eq!(count, expected);
}

#[test]
fn a_leap_onto_a_wall_inside_opens_two_cells() {
    let mut grid = Grid::filled(7, 7, Cell::Wall);
    let mut frontier: VecDeque<(usize, usize)> = VecDeque::new();
    carve_toward(&mut grid, &mut frontier, (2, 2), (2, 0));
    assert_eq!(grid.get(4, 2), Cell::Open);
    assert_eq!(grid.get(3, 2), Cell::Open);
    assert_eq!(grid.get(2, 2), Cell::Wall);
    assert_eq!(grid.count(Cell::Open), 2);
    assert_eq!(frontier, VecDeque::from(vec![(4, 2)]));
    carve_toward(&mut grid, &mut frontier, (4, 2), (0, 2));
    assert_eq!(grid.get(4, 4), Cell::Open);
    assert_eq!(grid.get(4, 3), Cell::Open);
    assert_eq!(frontier, VecDeque::from(vec![(4, 2), (4, 4)]));
}

#[test]
fn a_leap_into_the_outer_ring_or_onto_floor_changes_nothing() {
    let mut grid = Grid::filled(7, 7, Cell::Wall);
    grid.set(2, 4, Cell::Open);
    let before = cells_of(&grid);
    let mut frontier: VecDeque<(usize, usize)> = VecDeque::new();
    carve_toward(&mut grid, &mut frontier, (2, 2), (-2, 0));
    carve_toward(&mut grid, &mut frontier, (2, 2), (0, -2));
    carve_toward(&mut grid, &mut frontier, (2, 2), (0, 2));
    carve_toward(&mut grid, &mut frontier, (4, 4), (2, 0));
    carve_toward(&mut grid, &mut frontier, (0, 0), (-2, 0));
    assert_eq!(cells_of(&grid), before);
    assert!(frontier.is_empty());
}

#[test]
fn carving_around_a_cell_takes_the_leaps_in_order() {
    let mut grid = Grid::filled(7, 7, Cell::Wall);
    grid.set(2, 2, Cell::Open);
    let mut frontier: VecDeque<(usize, usize)> = VecDeque::new();
    frontier.push_back((9, 9));
    let order = vec![(2, 0), (0, -2), (0, 2), (-2, 0)];
    carve_around(&mut grid, &mut frontier, (2, 2), &order);
    assert_eq!(frontier, VecDeque::from(vec![(9, 9), (4, 2), (2, 4)]));
    for &(x, y) in &[(2, 2), (3, 2), (4, 2), (2, 3), (2, 4)] {
        assert_eq!(grid.get(x, y), Cell::Open);
    }
    assert_eq!(grid.count(Cell::Open), 5);
    let order = all_leaps();
    carve_around(&mut grid, &mut frontier, (4, 2), &order);
    assert_eq!(frontier, VecDeque::from(vec![(9, 9), (4, 2), (2, 4), (4, 4)]));
    assert_eq!(grid.get(4, 3), Cell::Open);
    assert_eq!(grid.count(Cell::Open), 7);
}

#[test]
fn carving_around_with_no_leaps_changes_nothing() {
    let mut grid = Grid::filled(7, 7, Cell::Wall);
    let mut frontier: VecDeque<(usize, usize)> = VecDeque::new();
    let order: Vec<(i32, i32)> = Vec::new();
    carve_around(&mut grid, &mut frontier, (2, 2), &order);
    assert_eq!(grid.count(Cell::Wall), 49);
    assert!(frontier.is_empty());
}

#[test]
fn open_wall_opens_walls_only() {
    let mut grid = Grid::filled(5, 5, Cell::Wall);
    grid.set(2, 2, Cell::Pellet);
    open_wall(&mut grid, 1, 1);
    open_wall(&mut grid, 2, 2);
    open_wall(&mut grid, 1, 1);
    assert_eq!(grid.get(1, 1), Cell::Open);
    assert_eq!(grid.get(2, 2), Cell::Pellet);
    assert_eq!(grid.count(Cell::Wall), 23);
}

#[test]
fn pellets_are_seeded_inside_the_outer_ring_only() {
    let mut grid = Grid::filled(5, 5, Cell::Wall);
    grid.set(1, 1, Cell::Open);
    grid.set(3, 2, Cell::Open);
    grid.set(2, 3, Cell::Pellet);
    grid.set(0, 2, Cell::Open);
    grid.set(4, 4, Cell::Open);
    seed_pellets(&mut grid);
    assert_eq!(grid.get(1, 1), Cell::Pellet);
    assert_eq!(grid.get(3, 2), Cell::Pellet);
    assert_eq!(grid.get(2, 3), Cell::Pellet);
    assert_eq!(grid.get(0, 2), Cell::Open);
    assert_eq!(grid.get(4, 4), Cell::Open);
    assert_eq!(grid.get(2, 2), Cell::Wall);
    assert_eq!(grid.count(Cell::Pellet), 3);
}

#[test]
fn seeding_a_grid_without_an_inside_changes_nothing() {
    let mut grid = Grid::filled(2, 6, Cell::Open);
    seed_pellets(&mut grid);
    assert_eq!(grid.count(Cell::Open), 12);
    let mut grid = Grid::filled(0, 0, Cell::Open);
    seed_pellets(&mut grid);
    assert_eq!(grid.count(Cell::Open), 0);
}

#[test]
fn maze_has_walls_all_around_and_pellets_on_the_lattice() {
    let mut rng = rand::thread_rng();
    for _ in 0..20 {
        let maze = generate(28, 31, 80, &mut rng);
        assert_fresh(&maze, 28, 31);
    }
}

#[test]
fn maze_counts_add_up() {
    let mut rng = rand::thread_rng();
    let maze = generate(28, 31, 80, &mut rng);
    assert_eq!(
        maze.count(Cell::Wall) + maze.count(Cell::Open) + maze.count(Cell::Pellet),
        28 * 31
    );
}

#[test]
fn smallest_maze_has_one_pellet() {
    let mut rng = rand::thread_rng();
    let maze = generate(4, 4, 0, &mut rng);
    assert_fresh(&maze, 4, 4);
    assert_eq!(maze.get(2, 2), Cell::Pellet);
    assert_eq!(maze.count(Cell::Pellet), 1);
    assert_eq!(maze.count(Cell::Wall), 15);
}

#[test]
fn mazes_of_many_sizes_are_fresh() {
    let mut rng = rand::thread_rng();
    for &(width, height, density) in
        &[(4usize, 9usize, 0u32), (5, 5, 50), (9, 4, 100), (12, 7, 300), (31, 28, 80)]
    {
        let maze = generate(width, height, density, &mut rng);
        assert_fresh(&maze, width, height);
    }
}

#[test]
fn carving_alone_opens_a_tree_over_the_lattice() {
    // Without extra openings the passages form a tree: one cell for each of
    // the lattice cells and one for each but one of them to join it.
    let mut rng = rand::thread_rng();
    for _ in 0..20 {
        let maze = generate(9, 7, 0, &mut rng);
        assert_fresh(&maze, 9, 7);
        // Lattice: x in {2, 4, 6}, y in {2, 4}: six cells, five joints.
        assert_eq!(maze.count(Cell::Pellet), 11);
    }
}

#[test]
fn heavy_opening_leaves_few_walls_inside() {
    let mut rng = rand::thread_rng();
    let maze = generate(8, 8, 5000, &mut rng);
    assert_fresh(&maze, 8, 8);
    // 3200 draws over 36 cells: a cell is missed with a chance below 1e-38.
    assert_eq!(maze.count(Cell::Pellet), 36);
}

#[test]
fn the_start_of_carving_is_drawn() {
    // In a maze of 7 by 7 without extra openings the four lattice cells are
    // joined by three of the four cells between them. Which one stays a wall
    // depends on the start that was drawn and on the order of the leaps. Were
    // the start always the first lattice cell, a wall would never stay at
    // (2, 3) or (3, 2).
    let mut rng = rand::thread_rng();
    let mut seen = false;
    for _ in 0..400 {
        let maze = generate(7, 7, 0, &mut rng);
        assert_eq!(maze.count(Cell::Pellet), 7);
        if maze.get(2, 3) == Cell::Wall || maze.get(3, 2) == Cell::Wall {
            seen = true;
        }
    }
    assert!(seen);
}

#[test]
fn the_order_of_the_leaps_is_drawn() {
    // Were the leaps always taken in the order up, down, left, right, the
    // wall that stays in a maze of 7 by 7 would always stand between two
    // lattice cells of one column, at (2, 3) or (4, 3).
    let mut rng = rand::thread_rng();
    let mut seen = false;
    for _ in 0..400 {
        let maze = generate(7, 7, 0, &mut rng);
        if maze.get(3, 2) == Cell::Wall || maze.get(3, 4) == Cell::Wall {
            seen = true;
        }
    }
    assert!(seen);
}

#[test]
fn every_lattice_cell_can_be_reached_from_every_other() {
    let mut rng = rand::thread_rng();
    for &density in &[0u32, 10, 80] {
        let maze = generate(13, 11, density, &mut rng);
        let mut lattice = Vec::new();
        for y in (2..10).step_by(2) {
            for x in (2..12).step_by(2) {
                lattice.push((x, y));
            }
        }
        assert_eq!(lattice.len(), 20);
        for &from in &lattice {
            for &to in &lattice {
                let step = shortest_first_step(&maze, from, to);
                if from == to {
                    assert_eq!(step, None);
                } else {
                    assert!(step.is_some());
                }
            }
        }
    }
}

#[test]
fn pellets_number_at_least_the_tree_and_at_most_the_extra_openings_more() {
    let mut rng = rand::thread_rng();
    for &(width, height, density) in &[
        (28usize, 31usize, 80u32),
        (28, 31, 0),
        (4, 4, 100),
        (5, 9, 30),
        (10, 6, 7),
        (16, 16, 200),
    ] {
        let lattice = ((width - 2) / 2) * ((height - 2) / 2);
        let tree = 2 * lattice - 1;
        let extra = count_extra_openings(width, height, density) as usize;
        for _ in 0..5 {
            let maze = generate(width, height, density, &mut rng);
            let pellets = maze.count(Cell::Pellet);
            assert!(pellets >= tree);
            assert!(pellets <= tree + extra);
            assert!(pellets <= (width - 2) * (height - 2));
            if density == 0 {
                assert_eq!(pellets, tree);
            }
        }
    }
}

#[test]
fn a_maze_of_28_by_31_carves_a_tree_of_363_cells() {
    let mut rng = rand::thread_rng();
    let maze = generate(28, 31, 0, &mut rng);
    assert_eq!(maze.count(Cell::Pellet), 363);
    assert_eq!(maze.count(Cell::Wall), 28 * 31 - 363);
}
