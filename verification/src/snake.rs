//! The growing-trail game: a snake on a board of 20 by 20 cells that moves
//! one step every 150 000 microseconds, grows when it eats, and starts over
//! when it leaves the board or runs into itself.
//!
//! Where the food goes next is drawn by the host and handed in with every
//! call that may need it.

use vstd::prelude::*;

verus! {

/// The number of columns of the board.
pub const WIDTH: u32 = 20;

/// The number of rows of the board.
pub const HEIGHT: u32 = 20;

/// The microseconds between two steps of the snake.
pub const SNAKE_MOVE_INTERVAL: u64 = 150_000;

/// A game as the contracts see it.
pub struct SnakeView {
    /// The cells of the snake, head first.
    pub body: Seq<(u32, u32)>,
    /// The step that the snake takes when it moves.
    pub direction: (i32, i32),
    /// The cell of the food.
    pub food: (u32, u32),
    /// Whether the game runs.
    pub running: bool,
    /// The microseconds counted since the snake moved.
    pub clock: u64,
}

/// Where the snake lies when a game starts.
pub open spec fn first_body() -> Seq<(u32, u32)> {
    seq![(10u32, 10u32)]
}

/// The cell that the head would enter next, which may lie off the board.
pub open spec fn next_head(v: SnakeView) -> (int, int) {
    (v.body[0].0 + v.direction.0, v.body[0].1 + v.direction.1)
}

/// `cell` lies on the board.
pub open spec fn on_board(cell: (int, int)) -> bool {
    0 <= cell.0 < WIDTH && 0 <= cell.1 < HEIGHT
}

/// `step` is the reverse of `direction`.
pub open spec fn reverses(step: (i32, i32), direction: (i32, i32)) -> bool {
    step.0 == -direction.0 && step.1 == -direction.1
}

/// The game after it was started over: one cell of snake, no direction,
/// standing still, the food where it was drawn. The clock stays.
pub open spec fn after_reset(v: SnakeView, drawn: (u32, u32)) -> SnakeView {
    SnakeView { body: first_body(), direction: (0i32, 0i32), food: drawn, running: false, ..v }
}

/// The game after the snake took a step. Off the board, or into itself, it
/// starts over. Onto the food, it grows by the cell it enters and the food
/// goes where it was drawn. Else it moves on: it gains the cell it enters
/// and gives up its last.
pub open spec fn after_step(v: SnakeView, drawn: (u32, u32)) -> SnakeView {
    let to = next_head(v);
    if !on_board(to) {
        after_reset(v, drawn)
    } else {
        let head = (to.0 as u32, to.1 as u32);
        let eats = head == v.food;
        let rest = if eats {
            v.body
        } else {
            v.body.drop_last()
        };
        if rest.contains(head) {
            after_reset(v, drawn)
        } else {
            SnakeView {
                body: seq![head] + rest,
                food: if eats {
                    drawn
                } else {
                    v.food
                },
                ..v
            }
        }
    }
}

/// The game after `elapsed` microseconds. A game that stands still stays as
/// it is. Else the clock goes on, and where it reaches its interval it
/// starts anew and the snake, if it has a direction, takes a step.
pub open spec fn after_update(v: SnakeView, elapsed: u64, drawn: (u32, u32)) -> SnakeView {
    if !v.running {
        v
    } else if v.clock + elapsed < SNAKE_MOVE_INTERVAL {
        SnakeView { clock: (v.clock + elapsed) as u64, ..v }
    } else {
        let fired = SnakeView { clock: 0, ..v };
        if v.direction == (0i32, 0i32) {
            fired
        } else {
            after_step(fired, drawn)
        }
    }
}

/// The game after a direction command: the direction is taken unless it is
/// the reverse of the one in force, and the game runs.
pub open spec fn after_command(v: SnakeView, dx: i32, dy: i32) -> SnakeView {
    SnakeView {
        direction: if reverses((dx, dy), v.direction) {
            v.direction
        } else {
            (dx, dy)
        },
        running: true,
        ..v
    }
}

/// A game of snake.
pub struct SnakeGame {
    last_update_time: u64,
    snake: Vec<(u32, u32)>,
    direction: (i32, i32),
    food: (u32, u32),
    running: bool,
}

impl View for SnakeGame {
    type V = SnakeView;

    closed spec fn view(&self) -> SnakeView {
        SnakeView {
            body: self.snake@,
            direction: self.direction,
            food: self.food,
            running: self.running,
            clock: self.last_update_time,
        }
    }
}

impl SnakeGame {
    /// What holds of a game between any two calls: the snake has a head, all
    /// of it lies on the board, and the clock stands below its interval.
    pub open spec fn wf(&self) -> bool {
        &&& self@.body.len() >= 1
        &&& forall|i: int|
            0 <= i < self@.body.len() ==> on_board(
                ((#[trigger] self@.body[i]).0 as int, self@.body[i].1 as int),
            )
        &&& self@.clock < SNAKE_MOVE_INTERVAL
    }

    /// A new game: the snake in the middle of the board, the food at
    /// (5, 5), standing still.
    pub fn new() -> (game: SnakeGame)
        ensures
            game.wf(),
            game@ == (SnakeView {
                body: first_body(),
                direction: (0i32, 0i32),
                food: (5u32, 5u32),
                running: false,
                clock: 0,
            }),
    {
        let mut snake: Vec<(u32, u32)> = Vec::new();
        snake.push((10, 10));
        SnakeGame { last_update_time: 0, snake, direction: (0, 0), food: (5, 5), running: false }
    }

    /// The cells of the snake, head first.
    pub fn snake(&self) -> (body: &Vec<(u32, u32)>)
        ensures
            body@ == self@.body,
    {
        &self.snake
    }

    /// The step that the snake takes when it moves.
    pub fn direction(&self) -> (step: (i32, i32))
        ensures
            step == self@.direction,
    {
        self.direction
    }

    /// The cell of the food.
    pub fn food(&self) -> (cell: (u32, u32))
        ensures
            cell == self@.food,
    {
        self.food
    }

    /// Whether the game runs.
    pub fn running(&self) -> (runs: bool)
        ensures
            runs == self@.running,
    {
        self.running
    }

    /// Takes a direction command: the direction is taken unless it is the
    /// reverse of the one in force, and the game runs from now on.
    pub fn change_direction(&mut self, dx: i32, dy: i32)
        requires
            old(self).wf(),
        ensures
            final(self).wf(),
            final(self)@ == after_command(old(self)@, dx, dy),
    {
        let reverse = dx as i64 == -(self.direction.0 as i64) && dy as i64 == -(
        self.direction.1 as i64);
        if !reverse {
            self.direction = (dx, dy);
        }
        self.running = true;
    }

    /// Starts the game over, with the food at `drawn`.
    pub fn reset(&mut self, drawn: (u32, u32))
        requires
            old(self).wf(),
        ensures
            final(self).wf(),
            final(self)@ == after_reset(old(self)@, drawn),
    {
        let mut snake: Vec<(u32, u32)> = Vec::new();
        snake.push((10, 10));
        self.snake = snake;
        self.direction = (0, 0);
        self.food = drawn;
        self.running = false;
    }

    /// Whether `cell` is one of the first `count` cells of the snake.
    fn covers(&self, cell: (u32, u32), count: usize) -> (found: bool)
        requires
            count <= self@.body.len(),
        ensures
            found == self@.body.take(count as int).contains(cell),
    {
        let mut i: usize = 0;
        while i < count
            invariant
                i <= count,
                count <= self.snake@.len(),
                forall|j: int| 0 <= j < i ==> self.snake@[j] != cell,
            decreases count - i,
        {
            let part = self.snake[i];
            if part.0 == cell.0 && part.1 == cell.1 {
                assert(self@.body.take(count as int)[i as int] == cell);
                return true;
            }
            i += 1;
        }
        false
    }

    /// Moves the snake one step in its direction, with the cell `drawn` for
    /// the food in case it is eaten or the game starts over.
    pub fn step(&mut self, drawn: (u32, u32))
        requires
            old(self).wf(),
        ensures
            final(self).wf(),
            final(self)@ == after_step(old(self)@, drawn),
    {
        let head = self.snake[0];
        let x: i64 = head.0 as i64 + self.direction.0 as i64;
        let y: i64 = head.1 as i64 + self.direction.1 as i64;
        if x < 0 || x >= WIDTH as i64 || y < 0 || y >= HEIGHT as i64 {
            self.reset(drawn);
            return ;
        }
        let to = (x as u32, y as u32);
        let eats = to.0 == self.food.0 && to.1 == self.food.1;
        let kept = if eats {
            self.snake.len()
        } else {
            self.snake.len() - 1
        };
        let ghost rest = self@.body.take(kept as int);
        proof {
            if eats {
                assert(rest =~= self@.body);
            }
        }
        if self.covers(to, kept) {
            self.reset(drawn);
            return ;
        }
        if eats {
            self.food = drawn;
        } else {
            self.snake.pop();
        }
        self.snake.insert(0, to);
        proof {
            assert(self@.body =~= seq![to] + rest);
        }
    }

    /// Advances the game by `elapsed` microseconds, with the cell `drawn`
    /// for the food in case it is needed. The snake takes at most one step,
    /// however much time has passed.
    pub fn update(&mut self, elapsed: u64, drawn: (u32, u32))
        requires
            old(self).wf(),
        ensures
            final(self).wf(),
            final(self)@ == after_update(old(self)@, elapsed, drawn),
    {
        if !self.running {
            return ;
        }
        if elapsed < SNAKE_MOVE_INTERVAL - self.last_update_time {
            self.last_update_time = self.last_update_time + elapsed;
            return ;
        }
        self.last_update_time = 0;
        if self.direction.0 == 0 && self.direction.1 == 0 {
            return ;
        }
        self.step(drawn);
    }
}

} // verus!
