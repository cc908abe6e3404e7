use wasm_games::adversary::{
    all_steps, decide_move, first_legal, mistakes, next_move, scatters, MISTAKE_PERCENT,
    SCATTER_PERCENT,
};
use wasm_games::grid::{Cell, Grid};

fn corridor() -> Grid {
    let mut grid = Grid::filled(28, 31, Cell::Wall);
    for y in 5..9 {
        grid.set(5, y, Cell::Open);
    }
    grid
}

fn room(width: usize, height: usize) -> Grid {
    let mut grid = Grid::filled(width, height, Cell::Wall);
    for y in 1..height - 1 {
        for x in 1..width - 1 {
            grid.set(x, y, Cell::Open);
        }
    }
    grid
}

#[test]
fn shares_are_three_in_ten() {
    assert_eq!(SCATTER_PERCENT, 30);
    assert_eq!(MISTAKE_PERCENT, 30);
}

#[test]
fn all_steps_are_up_down_left_right() {
    assert_eq!(all_steps(), vec![(0, -1), (0, 1), (-1, 0), (1, 0)]);
}

#[test]
fn pursuit_follows_the_corridor_without_scatter_or_mistake() {
    let grid = corridor();
    assert_eq!(decide_move(&grid, (5, 5), (5, 8), None), (0, 1));
}

#[test]
fn enclosed_adversary_stays() {
    let mut grid = Grid::filled(28, 31, Cell::Wall);
    grid.set(10, 10, Cell::Open);
    grid.set(20, 20, Cell::Open);
    assert_eq!(decide_move(&grid, (10, 10), (20, 20), None), (0, 0));
    assert_eq!(decide_move(&grid, (10, 10), (10, 10), None), (0, 0));
    assert_eq!(decide_move(&grid, (10, 10), (0, 0), None), (0, 0));
    let orders: Vec<Vec<(i32, i32)>> = vec![
        vec![(0, -1), (0, 1), (-1, 0), (1, 0)],
        vec![(1, 0), (-1, 0), (0, 1), (0, -1)],
        vec![(0, 1), (1, 0), (0, -1), (-1, 0)],
    ];
    for order in &orders {
        assert_eq!(decide_move(&grid, (10, 10), (20, 20), Some(order)), (0, 0));
    }
    let mut rng = rand::thread_rng();
    for _ in 0..200 {
        assert_eq!(next_move(&grid, (10, 10), (20, 20), &mut rng), (0, 0));
    }
}

#[test]
fn rolls_below_thirty_scatter_and_mistake() {
    assert!(scatters(0));
    assert!(scatters(29));
    assert!(!scatters(30));
    assert!(!scatters(99));
    assert!(mistakes(0));
    assert!(mistakes(29));
    assert!(!mistakes(30));
    assert!(!mistakes(99));
}

#[test]
fn first_legal_takes_the_first_step_off_the_walls() {
    let grid = corridor();
    let order = vec![(1, 0), (-1, 0), (0, 1), (0, -1)];
    assert_eq!(first_legal(&grid, (5, 6), &order), Some((0, 1)));
    let order = vec![(0, -1), (0, 1)];
    assert_eq!(first_legal(&grid, (5, 6), &order), Some((0, -1)));
    let order = vec![(1, 0), (-1, 0)];
    assert_eq!(first_legal(&grid, (5, 6), &order), None);
    let order: Vec<(i32, i32)> = Vec::new();
    assert_eq!(first_legal(&grid, (5, 6), &order), None);
    let order = vec![(0, 3), (0, 2)];
    assert_eq!(first_legal(&grid, (5, 5), &order), Some((0, 3)));
}

#[test]
fn first_legal_stays_inside_the_grid() {
    let grid = Grid::filled(3, 3, Cell::Open);
    let order = vec![(0, -1), (-1, 0), (1, 0)];
    assert_eq!(first_legal(&grid, (0, 0), &order), Some((1, 0)));
    let order = vec![(0, 1), (1, 0)];
    assert_eq!(first_legal(&grid, (2, 2), &order), None);
}

#[test]
fn a_mistake_overrides_the_walk() {
    let grid = room(7, 7);
    // The walk to (3, 5) from (3, 3) begins downwards.
    assert_eq!(decide_move(&grid, (3, 3), (3, 5), None), (0, 1));
    let order = vec![(-1, 0), (0, -1), (0, 1), (1, 0)];
    assert_eq!(decide_move(&grid, (3, 3), (3, 5), Some(&order)), (-1, 0));
    let order = vec![(0, -1), (1, 0), (-1, 0), (0, 1)];
    assert_eq!(decide_move(&grid, (3, 3), (3, 5), Some(&order)), (0, -1));
}

#[test]
fn a_mistake_skips_walls() {
    let grid = corridor();
    let order = vec![(-1, 0), (1, 0), (0, -1), (0, 1)];
    assert_eq!(decide_move(&grid, (5, 8), (5, 5), Some(&order)), (0, -1));
    assert_eq!(decide_move(&grid, (5, 5), (5, 8), Some(&order)), (0, 1));
}

#[test]
fn a_detour_without_a_legal_step_leaves_the_walk() {
    let grid = corridor();
    let order = vec![(-1, 0), (1, 0)];
    assert_eq!(decide_move(&grid, (5, 6), (5, 8), Some(&order)), (0, 1));
    let order: Vec<(i32, i32)> = Vec::new();
    assert_eq!(decide_move(&grid, (5, 6), (5, 5), Some(&order)), (0, -1));
}

#[test]
fn no_walk_means_staying() {
    let grid = corridor();
    assert_eq!(decide_move(&grid, (5, 5), (5, 5), None), (0, 0));
    assert_eq!(decide_move(&grid, (5, 5), (20, 20), None), (0, 0));
}

#[test]
fn next_move_stays_or_steps_onto_floor() {
    let mut grid = room(9, 9);
    grid.set(4, 4, Cell::Wall);
    grid.set(4, 5, Cell::Wall);
    grid.set(2, 2, Cell::Wall);
    let mut rng = rand::thread_rng();
    for round in 0..400usize {
        let from = (1 + round % 7, 1 + (round / 7) % 7);
        let step = next_move(&grid, from, (7, 7), &mut rng);
        assert!(step == (0, 0) || step.0.abs() + step.1.abs() == 1);
        let x = (from.0 as i64 + step.0 as i64) as usize;
        let y = (from.1 as i64 + step.1 as i64) as usize;
        assert!(x < 9 && y < 9);
        if step != (0, 0) {
            assert_ne!(grid.get(x, y), Cell::Wall);
        }
    }
}

#[test]
fn next_move_in_a_dead_end_takes_the_only_way() {
    let mut grid = Grid::filled(5, 5, Cell::Wall);
    grid.set(1, 1, Cell::Open);
    grid.set(2, 1, Cell::Open);
    let mut rng = rand::thread_rng();
    for _ in 0..200 {
        let step = next_move(&grid, (1, 1), (2, 1), &mut rng);
        assert!(step == (1, 0) || step == (0, 0));
    }
}

#[test]
fn next_move_pursues_most_of_the_time() {
    // In an open room the walk from (2, 5) to (8, 5) begins to the right.
    // Without scatter and mistake that step comes every time; with them it
    // still comes more often than any other step, and other steps come too.
    let grid = room(11, 11);
    let mut rng = rand::thread_rng();
    let mut right = 0;
    let mut other = 0;
    for _ in 0..2000 {
        if next_move(&grid, (2, 5), (8, 5), &mut rng) == (1, 0) {
            right += 1;
        } else {
            other += 1;
        }
    }
    assert!(right > other);
    assert!(other > 0);
}
