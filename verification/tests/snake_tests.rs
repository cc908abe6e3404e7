use wasm_games::snake::{SnakeGame, HEIGHT, SNAKE_MOVE_INTERVAL, WIDTH};

#[test]
fn snake_board_is_twenty_by_twenty() {
    assert_eq!(WIDTH, 20);
    assert_eq!(HEIGHT, 20);
    assert_eq!(SNAKE_MOVE_INTERVAL, 150_000);
}

#[test]
fn new_snake_waits_in_the_middle() {
    let game = SnakeGame::new();
    assert_eq!(game.snake(), &vec![(10, 10)]);
    assert_eq!(game.direction(), (0, 0));
    assert_eq!(game.food(), (5, 5));
    assert!(!game.running());
}

#[test]
fn snake_that_stands_still_ignores_time() {
    let mut game = SnakeGame::new();
    game.update(10_000_000, (1, 1));
    assert_eq!(game.snake(), &vec![(10, 10)]);
    assert_eq!(game.food(), (5, 5));
    assert!(!game.running());
}

#[test]
fn snake_moves_one_step_when_its_clock_fires() {
    let mut game = SnakeGame::new();
    game.change_direction(1, 0);
    assert!(game.running());
    game.update(149_999, (1, 1));
    assert_eq!(game.snake(), &vec![(10, 10)]);
    game.update(1, (1, 1));
    assert_eq!(game.snake(), &vec![(11, 10)]);
    game.update(u64::MAX, (1, 1));
    assert_eq!(game.snake(), &vec![(12, 10)]);
    assert_eq!(game.food(), (5, 5));
}

#[test]
fn snake_grows_when_it_eats() {
    let mut game = SnakeGame::new();
    game.reset((12, 10));
    game.change_direction(1, 0);
    game.step((3, 3));
    assert_eq!(game.snake(), &vec![(11, 10)]);
    assert_eq!(game.food(), (12, 10));
    game.step((3, 3));
    assert_eq!(game.snake(), &vec![(12, 10), (11, 10)]);
    assert_eq!(game.food(), (3, 3));
    game.step((4, 4));
    assert_eq!(game.snake(), &vec![(13, 10), (12, 10)]);
    assert_eq!(game.food(), (3, 3));
    assert!(game.running());
}

#[test]
fn snake_starts_over_off_the_board() {
    for &(dx, dy) in &[(1, 0), (-1, 0), (0, 1), (0, -1)] {
        let mut game = SnakeGame::new();
        game.change_direction(dx, dy);
        let mut steps = 0;
        while game.running() {
            game.step((7, 8));
            steps += 1;
            assert!(steps <= 11);
        }
        assert_eq!(steps, if dx + dy > 0 { 10 } else { 11 });
        assert_eq!(game.snake(), &vec![(10, 10)]);
        assert_eq!(game.direction(), (0, 0));
        assert_eq!(game.food(), (7, 8));
    }
}

#[test]
fn snake_starts_over_when_it_runs_into_itself() {
    let mut game = SnakeGame::new();
    // Feed the snake four times in a row, then turn it round on itself.
    game.reset((11, 10));
    game.change_direction(1, 0);
    game.step((12, 10));
    game.step((13, 10));
    game.step((14, 10));
    game.step((15, 10));
    assert_eq!(game.snake(), &vec![(14, 10), (13, 10), (12, 10), (11, 10), (10, 10)]);
    game.change_direction(0, 1);
    game.step((0, 0));
    game.change_direction(-1, 0);
    game.step((0, 0));
    assert_eq!(game.snake(), &vec![(13, 11), (14, 11), (14, 10), (13, 10), (12, 10)]);
    game.change_direction(0, -1);
    game.step((2, 2));
    assert_eq!(game.snake(), &vec![(10, 10)]);
    assert_eq!(game.food(), (2, 2));
    assert!(!game.running());
    assert_eq!(game.direction(), (0, 0));
}

#[test]
fn snake_may_follow_its_own_tail() {
    let mut game = SnakeGame::new();
    game.reset((11, 10));
    game.change_direction(1, 0);
    game.step((12, 10));
    game.step((13, 10));
    game.step((19, 19));
    assert_eq!(game.snake(), &vec![(13, 10), (12, 10), (11, 10), (10, 10)]);
    game.change_direction(0, 1);
    game.step((0, 0));
    game.change_direction(-1, 0);
    game.step((0, 0));
    assert_eq!(game.snake(), &vec![(12, 11), (13, 11), (13, 10), (12, 10)]);
    game.change_direction(0, -1);
    // The head enters (12, 10) as the tail leaves it.
    game.step((0, 0));
    assert_eq!(game.snake(), &vec![(12, 10), (12, 11), (13, 11), (13, 10)]);
    assert!(game.running());
}

#[test]
fn snake_does_not_turn_right_round() {
    let mut game = SnakeGame::new();
    game.change_direction(1, 0);
    game.change_direction(-1, 0);
    assert_eq!(game.direction(), (1, 0));
    game.change_direction(0, -1);
    assert_eq!(game.direction(), (0, -1));
    game.change_direction(0, 1);
    assert_eq!(game.direction(), (0, -1));
    game.change_direction(i32::MIN, 0);
    assert_eq!(game.direction(), (i32::MIN, 0));
    game.change_direction(i32::MIN, 0);
    assert_eq!(game.direction(), (i32::MIN, 0));
}

#[test]
fn zero_direction_starts_the_game_and_keeps_the_snake() {
    let mut game = SnakeGame::new();
    game.change_direction(0, 0);
    assert!(game.running());
    assert_eq!(game.direction(), (0, 0));
    game.update(150_000, (1, 1));
    assert_eq!(game.snake(), &vec![(10, 10)]);
    assert!(game.running());
}

#[test]
fn long_steps_leave_the_board_too() {
    let mut game = SnakeGame::new();
    game.change_direction(i32::MAX, i32::MAX);
    game.step((6, 6));
    assert_eq!(game.snake(), &vec![(10, 10)]);
    assert!(!game.running());
    assert_eq!(game.food(), (6, 6));
    game.change_direction(5, 0);
    game.step((6, 6));
    assert_eq!(game.snake(), &vec![(15, 10)]);
}

#[test]
fn reset_of_a_snake_keeps_nothing_but_the_clock() {
    let mut game = SnakeGame::new();
    game.change_direction(0, 1);
    game.update(100_000, (1, 1));
    game.reset((4, 9));
    assert_eq!(game.snake(), &vec![(10, 10)]);
    assert_eq!(game.direction(), (0, 0));
    assert_eq!(game.food(), (4, 9));
    assert!(!game.running());
    game.change_direction(0, 1);
    game.update(50_000, (1, 1));
    assert_eq!(game.snake(), &vec![(10, 11)]);
}
